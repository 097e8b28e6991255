use vstd::prelude::*;
use std::collections::HashMap;
use crate::map::game_map::{GameMap, player_of, tile_hash, write_keeps_stones, lemma_place_undo, lemma_wf_alike, lemma_played_alike};
use crate::map::heurs::GameMeasure;
use crate::map::heurs::heuristic::Heuristic;
use crate::map::heurs::game_threats::{lex_compare, lemma_lex_order, lowest_measure, highest_measure};
use crate::map::quad_root::{tile_bound, after_write};
use crate::map::tile::Tile;
use std::cmp::Ordering;
use crate::search::candidates::{
    cells_increasing,
    cells_sorted,
    cell_le,
    cell_lt,
    sort_cells,
    is_candidate,
    repeated_below,
    near,
    near_any,
    interval_of,
    in_union,
    row_state,
    found_state,
    lemma_candidate_permutation,
    lemma_row_union,
    lemma_row_skip,
    lemma_scan_step,
};

verus! {

broadcast use {vstd::seq_lib::group_to_multiset_ensures, vstd::std_specs::hash::group_hash_axioms};

/// Distance, on the hexagonal grid, within which the search looks for moves.
pub const MOVE_DIST: i64 = 1;

/// Bound on the distance that `move_candidates` takes.
pub const MAX_MOVE_DIST: i64 = 0x1000_0000_0000_0000;

/// How the score of a search result bounds the true score.
#[derive(Clone, Copy, Debug, PartialEq, Eq, Structural)]
pub enum SearchBound {
    Lower,
    Upper,
    Exact,
}

/// A score found for a position, what kind of bound it is, and the depth, in
/// moves, up to which it was searched.
#[derive(Clone, Copy, Debug, PartialEq, Eq)]
pub struct SearchResult {
    pub score: GameMeasure,
    pub bound: SearchBound,
    pub depth: u64,
}

impl SearchResult {
    /// The result settles the position for a search up to `max_depth`: it was
    /// searched deep enough, or its bound already shows a win.
    pub open spec fn valid_spec(self, max_depth: u64) -> bool {
        self.depth >= max_depth || match self.bound {
            SearchBound::Lower => self.score.won() > 0,
            SearchBound::Upper => self.score.won() < 0,
            SearchBound::Exact => self.score.won() != 0,
        }
    }

    pub fn is_valid(&self, max_depth: u64) -> (r: bool)
        ensures
            r == self.valid_spec(max_depth),
    {
        self.depth >= max_depth || match self.bound {
            SearchBound::Lower => self.score.won_by() > 0,
            SearchBound::Upper => self.score.won_by() < 0,
            SearchBound::Exact => self.score.won_by() != 0,
        }
    }
}

/// Counters of the work a search did.
#[derive(Debug, Clone, Copy)]
pub struct Stats {
    pub get_any_score: usize,
    pub get_score: usize,
    pub alpha_beta: usize,
    pub tt_hits: usize,
    pub tt_non_hits: usize,
}

impl Default for Stats {
    fn default() -> (r: Stats)
        ensures
            r.get_any_score == 0 && r.get_score == 0 && r.alpha_beta == 0 && r.tt_hits == 0 && r.tt_non_hits
                == 0,
    {
        Stats { get_any_score: 0, get_score: 0, alpha_beta: 0, tt_hits: 0, tt_non_hits: 0 }
    }
}

/// The order of two measures: -1, 0 or 1.
pub open spec fn score_order(a: GameMeasure, b: GameMeasure) -> int {
    lex_compare(a.key(), b.key())
}

/// -1 when result `a` ranks before result `b` for the player to move, 1 when
/// after, 0 when they tie: X wants the greater score, O the smaller, and
/// both, on equal scores, the deeper search.
pub open spec fn rank_order(a: SearchResult, b: SearchResult, x_moves: bool) -> int {
    let sc = if x_moves {
        -score_order(a.score, b.score)
    } else {
        score_order(a.score, b.score)
    };
    if sc != 0 {
        sc
    } else if a.depth > b.depth {
        -1
    } else if a.depth < b.depth {
        1
    } else {
        0
    }
}

/// How the player to move ranks two results: O puts the smaller score
/// first, X the greater; on equal scores, both put the deeper search first.
pub proof fn lemma_rank_by_score(a: SearchResult, b: SearchResult)
    ensures
        score_order(a.score, b.score) == -1 ==> rank_order(a, b, false) == -1 && rank_order(a, b, true) == 1,
        score_order(a.score, b.score) == 1 ==> rank_order(a, b, false) == 1 && rank_order(a, b, true) == -1,
        score_order(a.score, b.score) == 0 ==> {
            &&& rank_order(a, b, false) == rank_order(a, b, true)
            &&& (rank_order(a, b, true) == -1) == (a.depth > b.depth)
            &&& (rank_order(a, b, true) == 1) == (a.depth < b.depth)
        },
{
}

/// Entry `a` comes before entry `b`: it ranks before, or ties and has the
/// smaller cell.
pub open spec fn entry_before(a: ((i64, i64), SearchResult), b: ((i64, i64), SearchResult), x_moves: bool) -> bool {
    rank_order(a.1, b.1, x_moves) == -1 || (rank_order(a.1, b.1, x_moves) == 0 && cell_lt(a.0, b.0))
}

/// The scored moves are in the order in which the player to move tries them.
pub open spec fn ranked(v: Seq<((i64, i64), SearchResult)>, x_moves: bool) -> bool {
    forall|i: int, j: int| 0 <= i < j < v.len() ==> entry_before(#[trigger] v[i], #[trigger] v[j], x_moves)
}

/// The cells of the scored moves increase.
pub open spec fn cells_of_increasing(v: Seq<((i64, i64), SearchResult)>) -> bool {
    forall|i: int, j: int| 0 <= i < j < v.len() ==> cell_lt((#[trigger] v[i]).0, (#[trigger] v[j]).0)
}

proof fn lemma_rank_order(a: SearchResult, b: SearchResult, c: SearchResult, x_moves: bool)
    ensures
        rank_order(a, b, x_moves) == -rank_order(b, a, x_moves),
        -1 <= rank_order(a, b, x_moves) <= 1,
        rank_order(a, b, x_moves) <= 0 && rank_order(b, c, x_moves) <= 0 ==> rank_order(a, c, x_moves) <= 0,
        rank_order(a, b, x_moves) < 0 && rank_order(b, c, x_moves) <= 0 ==> rank_order(a, c, x_moves) < 0,
        rank_order(a, b, x_moves) <= 0 && rank_order(b, c, x_moves) < 0 ==> rank_order(a, c, x_moves) < 0,
{
    lemma_lex_order(a.score.key(), b.score.key(), c.score.key());
    lemma_lex_order(b.score.key(), a.score.key(), c.score.key());
    lemma_lex_order(c.score.key(), b.score.key(), a.score.key());
    lemma_lex_order(a.score.key(), c.score.key(), b.score.key());
    lemma_lex_order(b.score.key(), c.score.key(), a.score.key());
    lemma_lex_order(c.score.key(), a.score.key(), b.score.key());
}

/// Whether result `a` ranks before result `b` for the player to move.
fn ranks_before(a: &SearchResult, b: &SearchResult, x_moves: bool) -> (r: bool)
    ensures
        r == (rank_order(*a, *b, x_moves) == -1),
        score_order(a.score, b.score) == -1 ==> r == !x_moves,
        score_order(a.score, b.score) == 1 ==> r == x_moves,
        score_order(a.score, b.score) == 0 ==> r == (a.depth > b.depth),
{
    proof {
        lemma_rank_by_score(*a, *b);
    }
    let c = a.score.cmp(&b.score);
    let sc = if x_moves {
        match c {
            Ordering::Less => Ordering::Greater,
            Ordering::Equal => Ordering::Equal,
            Ordering::Greater => Ordering::Less,
        }
    } else {
        c
    };
    match sc {
        Ordering::Less => true,
        Ordering::Greater => false,
        Ordering::Equal => a.depth > b.depth,
    }
}

/// Sorts the scored moves, whose cells increase, in the order in which the
/// player to move tries them; moves that tie keep their order.
fn rank_moves(v: &mut Vec<((i64, i64), SearchResult)>, x_moves: bool)
    requires
        cells_of_increasing(old(v)@),
    ensures
        ranked(final(v)@, x_moves),
        final(v)@.to_multiset() == old(v)@.to_multiset(),
        final(v)@.len() == old(v)@.len(),
{
    let n = v.len();
    if n == 0 {
        return;
    }
    let mut i: usize = 1;
    while i < n
        invariant
            1 <= i <= n,
            n == v.len(),
            v@.to_multiset() == old(v)@.to_multiset(),
            forall|a: int, b: int| 0 <= a < b < i ==> entry_before(#[trigger] v@[a], #[trigger] v@[b], x_moves),
            forall|a: int, b: int| 0 <= a < b < n && i <= a ==> cell_lt((#[trigger] v@[a]).0, (#[trigger] v@[b]).0),
            forall|a: int, b: int| 0 <= a < i && i <= b < n ==> cell_lt((#[trigger] v@[a]).0, (#[trigger] v@[b]).0),
        decreases n - i,
    {
        let mut j: usize = i;
        while j > 0 && ranks_before(&v[j].1, &v[j - 1].1, x_moves)
            invariant
                0 <= j <= i < n,
                n == v.len(),
                v@.to_multiset() == old(v)@.to_multiset(),
                forall|a: int, b: int| 0 <= a < b < j ==> entry_before(#[trigger] v@[a], #[trigger] v@[b], x_moves),
                forall|a: int, b: int| j < a < b <= i ==> entry_before(#[trigger] v@[a], #[trigger] v@[b], x_moves),
                forall|a: int, b: int| 0 <= a < j && j < b <= i ==> entry_before(#[trigger] v@[a], #[trigger] v@[b], x_moves),
                forall|b: int| j < b <= i ==> rank_order(v@[j as int].1, (#[trigger] v@[b]).1, x_moves) == -1,
                forall|a: int| 0 <= a <= i && a != j ==> cell_lt((#[trigger] v@[a]).0, v@[j as int].0),
                forall|a: int, b: int| 0 <= a < b < n && i < a ==> cell_lt((#[trigger] v@[a]).0, (#[trigger] v@[b]).0),
                forall|a: int, b: int| 0 <= a <= i && i < b < n ==> cell_lt((#[trigger] v@[a]).0, (#[trigger] v@[b]).0),
            decreases j,
        {
            let a = v[j - 1];
            let b = v[j];
            let ghost s0 = v@;
            v[j - 1] = b;
            v[j] = a;
            proof {
                assert(v@ == s0.update(j - 1, b).update(j as int, a));
                vstd::seq_lib::to_multiset_update(s0, j - 1, b);
                vstd::seq_lib::to_multiset_update(s0.update(j - 1, b), j as int, a);
                assert(s0.to_multiset().insert(b).remove(a).insert(a).remove(b) =~= s0.to_multiset());
                lemma_rank_order(b.1, a.1, a.1, x_moves);
                assert forall|bb: int| j - 1 < bb <= i implies rank_order(v@[j - 1].1, (#[trigger] v@[bb]).1, x_moves) == -1 by {
                    if bb > j {
                        lemma_rank_order(b.1, s0[bb].1, s0[bb].1, x_moves);
                        lemma_rank_order(b.1, a.1, s0[bb].1, x_moves);
                    }
                }
            }
            j -= 1;
        }
        proof {
            if j > 0 {
                lemma_rank_order(v@[j as int].1, v@[j - 1].1, v@[j - 1].1, x_moves);
            }
            assert forall|a: int, b: int| 0 <= a < b < i + 1 implies entry_before(#[trigger] v@[a], #[trigger] v@[b], x_moves) by {
                if b == j {
                    lemma_rank_order(v@[a].1, v@[j - 1].1, v@[j as int].1, x_moves);
                    lemma_rank_order(v@[a].1, v@[j as int].1, v@[j as int].1, x_moves);
                    assert(cell_lt(v@[a].0, v@[j as int].0));
                } else if a == j {
                    assert(rank_order(v@[j as int].1, v@[b].1, x_moves) == -1);
                } else if a < j && j < b {
                } else if b < j {
                } else {
                    assert(j < a);
                }
            }
        }
        i += 1;
    }
}

/// Every played cell lies `margin` cells or more inside the reach of writes.
pub open spec fn moves_fit(moves: Seq<(i64, i64)>, margin: int) -> bool {
    forall|i: int| 0 <= i < moves.len() ==> cell_fits(#[trigger] moves[i], margin)
}

/// Cell `c` lies `margin` cells or more inside the reach of writes.
pub open spec fn cell_fits(c: (i64, i64), margin: int) -> bool {
    &&& -tile_bound() + margin <= c.0 < tile_bound() - margin
    &&& -tile_bound() + margin <= c.1 < tile_bound() - margin
}

/// The measure asks for a deeper search: the differences of the three
/// longest kinds of threats are not all zero.
pub open spec fn critical(m: GameMeasure) -> bool {
    m.diffs()[5] != 0 || m.diffs()[4] != 0 || m.diffs()[3] != 0
}

/// The search stops at position `map` when it searches up to `max_depth`
/// moves: the position lies two moves past it, is won, or lies past it and
/// is quiet.
pub open spec fn is_terminal(map: GameMap, max_depth: u64) -> bool {
    map.depth() >= max_depth + 2 || map.measure().won() != 0 || (map.depth() >= max_depth && !critical(
        map.measure(),
    ))
}

/// All the counters are zero.
pub open spec fn stats_zero(s: Stats) -> bool {
    s.get_any_score == 0 && s.get_score == 0 && s.alpha_beta == 0 && s.tt_hits == 0 && s.tt_non_hits == 0
}

/// `e1` and `r` are what looking up the result of playing at (x, y) in `e0`
/// gives: the table's entry for the position that the move leads to, else
/// the measure and depth after the move, which then join the table; the
/// move is taken back.
pub closed spec fn looked_up(e0: Engine, e1: Engine, x: i64, y: i64, r: SearchResult) -> bool {
    let h = e0.map.hash() ^ tile_hash(x, y, player_of(e0.map.depth()));
    if e0.tt@.contains_key(h) {
        &&& r == e0.tt@[h]
        &&& e1.map == e0.map
        &&& e1.tt@ == e0.tt@
    } else {
        exists|after: GameMap|
            {
                &&& #[trigger] e0.map.played(after, x, y)
                &&& r == (SearchResult { score: after.measure(), bound: SearchBound::Exact, depth: after.depth() })
                &&& e1.tt@ == e0.tt@.insert(after.hash(), r)
                &&& after.taken_back(e1.map)
            }
    }
}

/// The cells of scored moves.
pub open spec fn cells_of(v: Seq<((i64, i64), SearchResult)>) -> Seq<(i64, i64)> {
    Seq::new(v.len(), |i: int| v[i].0)
}

/// The results of scored moves.
pub open spec fn results_of(v: Seq<((i64, i64), SearchResult)>) -> Seq<SearchResult> {
    Seq::new(v.len(), |i: int| v[i].1)
}

/// `states` are the engines that looking up the results of the cells in
/// turn passes through, from `e0` to `e1`, giving `results`.
pub closed spec fn run_through(
    e0: Engine,
    cells: Seq<(i64, i64)>,
    results: Seq<SearchResult>,
    e1: Engine,
    states: Seq<Engine>,
) -> bool {
    &&& states.len() == cells.len() + 1
    &&& states[0].map == e0.map && states[0].tt@ == e0.tt@
    &&& states.last().map == e1.map && states.last().tt@ == e1.tt@
    &&& forall|i: int|
        0 <= i < cells.len() ==> looked_up(#[trigger] states[i], states[i + 1], cells[i].0, cells[i].1, results[i])
}

/// Looking up the results of the cells in turn, starting from `e0`, gives
/// `results` and ends at `e1`.
pub closed spec fn looked_up_all(e0: Engine, cells: Seq<(i64, i64)>, results: Seq<SearchResult>, e1: Engine) -> bool {
    &&& cells.len() == results.len()
    &&& exists|states: Seq<Engine>| #[trigger] run_through(e0, cells, results, e1, states)
}

/// One more lookup extends a run of lookups.
proof fn lemma_looked_up_step(
    e0: Engine,
    v0: Seq<((i64, i64), SearchResult)>,
    mid: Engine,
    e1: Engine,
    c: (i64, i64),
    r: SearchResult,
)
    requires
        looked_up_all(e0, cells_of(v0), results_of(v0), mid),
        looked_up(mid, e1, c.0, c.1, r),
    ensures
        looked_up_all(e0, cells_of(v0.push((c, r))), results_of(v0.push((c, r))), e1),
{
    let n = v0.len();
    let states = choose|states: Seq<Engine>| run_through(e0, cells_of(v0), results_of(v0), mid, states);
    let states2 = states.push(e1);
    let v = v0.push((c, r));
    assert(looked_up(states[n as int], e1, c.0, c.1, r));
    assert forall|i: int| 0 <= i < cells_of(v).len() implies looked_up(
        #[trigger] states2[i],
        states2[i + 1],
        cells_of(v)[i].0,
        cells_of(v)[i].1,
        results_of(v)[i],
    ) by {
        if i < n {
            assert(states2[i] == states[i]);
            assert(states2[i + 1] == states[i + 1]);
            assert(cells_of(v)[i] == cells_of(v0)[i]);
            assert(results_of(v)[i] == results_of(v0)[i]);
        }
    }
    assert(run_through(e0, cells_of(v), results_of(v), e1, states2));
}

/// A run of lookups depends on the engine it starts from only through its
/// position and table.
proof fn lemma_looked_up_all_start(
    e0: Engine,
    e0b: Engine,
    cells: Seq<(i64, i64)>,
    results: Seq<SearchResult>,
    e1: Engine,
)
    requires
        looked_up_all(e0, cells, results, e1),
        e0b.map == e0.map,
        e0b.tt@ == e0.tt@,
    ensures
        looked_up_all(e0b, cells, results, e1),
{
    let states = choose|states: Seq<Engine>| run_through(e0, cells, results, e1, states);
    assert(run_through(e0b, cells, results, e1, states));
}

/// Going from `e0` to `e1`, the engine scored and ranked its candidate
/// moves: `scored` holds the candidate moves of `e0`, by row then column,
/// with the results that looking them up in turn found, and `order` holds
/// them in the order in which the player to move tries them.
pub open spec fn ranked_of(
    e0: Engine,
    e1: Engine,
    scored: Seq<((i64, i64), SearchResult)>,
    order: Seq<((i64, i64), SearchResult)>,
) -> bool {
    &&& cells_of_increasing(scored)
    &&& forall|i: int| 0 <= i < scored.len() ==> is_candidate(e0.position().moves(), MOVE_DIST as int, (#[trigger] scored[i]).0)
    &&& forall|c: (i64, i64)| is_candidate(e0.position().moves(), MOVE_DIST as int, c) ==> exists|i: int|
        0 <= i < scored.len() && (#[trigger] scored[i]).0 == c
    &&& looked_up_all(e0, cells_of(scored), results_of(scored), e1)
    &&& order.len() == scored.len()
    &&& order.to_multiset() == scored.to_multiset()
    &&& ranked(order, player_of(e0.position().depth()) == Tile::X)
}

/// `r` is the move that the engine picks going from `e0` to `e1`: the one
/// that comes first of the ranked candidate moves.
pub open spec fn best_of(
    e0: Engine,
    e1: Engine,
    scored: Seq<((i64, i64), SearchResult)>,
    order: Seq<((i64, i64), SearchResult)>,
    r: (i64, i64),
) -> bool {
    &&& ranked_of(e0, e1, scored, order)
    &&& order.len() > 0
    &&& r == order[0].0
}

/// The move picked ranks, for the player to move, before every other
/// candidate move with the result found for it.
pub proof fn lemma_best_ranks_first(
    e0: Engine,
    e1: Engine,
    scored: Seq<((i64, i64), SearchResult)>,
    order: Seq<((i64, i64), SearchResult)>,
    r: (i64, i64),
)
    requires
        best_of(e0, e1, scored, order, r),
    ensures
        forall|i: int|
            0 <= i < scored.len() ==> (#[trigger] scored[i]).0 == r || entry_before(
                order[0],
                scored[i],
                player_of(e0.position().depth()) == Tile::X,
            ),
{
    assert forall|i: int|
        0 <= i < scored.len() implies (#[trigger] scored[i]).0 == r || entry_before(
        order[0],
        scored[i],
        player_of(e0.position().depth()) == Tile::X,
    ) by {
        let e = scored[i];
        assert(scored.contains(e));
        vstd::seq_lib::to_multiset_contains(scored, e);
        vstd::seq_lib::to_multiset_contains(order, e);
        let j = choose|j: int| 0 <= j < order.len() && order[j] == e;
        if j > 0 {
            assert(entry_before(order[0], order[j], player_of(e0.position().depth()) == Tile::X));
        }
    }
}

/// Playing at (x, y) and taking the move back leaves empty every tile that
/// was empty; where (x, y) was empty, the hash comes back, and the position
/// after the move has the hash that `peek_hash` gives.
proof fn lemma_lookup_facts(m0: GameMap, after: GameMap, m1: GameMap, x: i64, y: i64)
    requires
        m0.played(after, x, y),
        after.taken_back(m1),
    ensures
        forall|a: int, b: int| m0.board().tile(a, b) == Tile::Empty ==> #[trigger] m1.board().tile(a, b) == Tile::Empty,
        m0.board().tile(x as int, y as int) == Tile::Empty ==> {
            &&& after.hash() == m0.hash() ^ tile_hash(x, y, player_of(m0.depth()))
            &&& m1.hash() == m0.hash()
        },
{
    assert(after.moves().last() == (x, y));
    let p = player_of(m0.depth());
    assert forall|a: int, b: int| m0.board().tile(a, b) == Tile::Empty implies #[trigger] m1.board().tile(a, b)
        == Tile::Empty by {
        assert(after.board().tile(a, b) == after_write(x as int, y as int, p, a, b, m0.board().tile(a, b)));
        assert(m1.board().tile(a, b) == after_write(x as int, y as int, Tile::Empty, a, b, after.board().tile(a, b)));
    }
    if m0.board().tile(x as int, y as int) == Tile::Empty {
        assert(after.board().tile(x as int, y as int) == p);
        assert(tile_hash(x, y, Tile::Empty) == 0);
        let h = m0.hash();
        let t = tile_hash(x, y, p);
        assert(h ^ 0u64 ^ t == h ^ t) by (bit_vector);
        assert((h ^ t) ^ t == h) by (bit_vector);
    }
}

/// Where no cell is played twice, a candidate move lies on an empty tile.
proof fn lemma_lone_candidate_empty(m: GameMap, c: (i64, i64))
    requires
        m.wf(),
        m.moves().no_duplicates(),
        is_candidate(m.moves(), MOVE_DIST as int, c),
    ensures
        m.board().tile(c.0 as int, c.1 as int) == Tile::Empty,
{
    if m.board().tile(c.0 as int, c.1 as int) != Tile::Empty {
        m.lemma_stones_are_moves(c.0 as int, c.1 as int);
        let i = choose|i: int| 0 <= i < m.moves().len() && m.moves()[i].0 == c.0 && m.moves()[i].1 == c.1;
        assert(m.moves()[i] == c);
        assert(m.moves().contains(c));
        if repeated_below(m.moves(), c) {
            let (a, b) = choose|a: int, b: int|
                0 <= a < b < m.moves().len() && #[trigger] m.moves()[a] == #[trigger] m.moves()[b] && m.moves()[a].0
                    == c.0 && m.moves()[a].1 < c.1;
        }
    }
}

/// How the result looked up for cell `cells[j]` came about, from `e0` on:
/// it is the entry of `e0`'s table for the position after the move; else,
/// where no write empties a stone, it is the measure after the move, or the
/// result found for an earlier cell whose move gives the same hash.
pub open spec fn found_as(e0: Engine, cells: Seq<(i64, i64)>, results: Seq<SearchResult>, j: int, keep: bool) -> bool {
    let k = move_key(e0.position(), cells[j]);
    if e0.table().contains_key(k) {
        results[j] == e0.table()[k]
    } else {
        keep ==> {
            ||| exists|i: int| 0 <= i < j && move_key(e0.position(), cells[i]) == k && results[j] == #[trigger] results[i]
            ||| exists|after: GameMap|
                #[trigger] e0.position().played(after, cells[j].0, cells[j].1) && results[j] == (SearchResult {
                    score: after.measure(),
                    bound: SearchBound::Exact,
                    depth: after.depth(),
                })
        }
    }
}

/// What the first `n` lookups from `e0` leave in engine `s`.
spec fn lookups_kept(e0: Engine, cells: Seq<(i64, i64)>, results: Seq<SearchResult>, s: Engine, n: int, keep: bool) -> bool {
    let m0 = e0.map;
    &&& s.map.moves() == m0.moves()
    &&& s.map.depth() == m0.depth()
    &&& s.map.hash() == m0.hash()
    &&& forall|a: int, b: int| m0.board().tile(a, b) == Tile::Empty ==> #[trigger] s.map.board().tile(a, b) == Tile::Empty
    &&& forall|k: u64| #[trigger] e0.tt@.contains_key(k) ==> s.tt@.contains_key(k) && s.tt@[k] == e0.tt@[k]
    &&& forall|k: u64|
        #[trigger] s.tt@.contains_key(k) ==> e0.tt@.contains_key(k) || exists|j: int|
            0 <= j < n && move_key(m0, cells[j]) == k
    &&& forall|j: int|
        0 <= j < n ==> #[trigger] s.tt@.contains_key(move_key(m0, cells[j])) && s.tt@[move_key(m0, cells[j])]
            == results[j]
    &&& forall|j: int| 0 <= j < n ==> #[trigger] found_as(e0, cells, results, j, keep)
    &&& keep ==> {
        &&& forall|a: int, b: int| #[trigger] s.map.board().tile(a, b) == m0.board().tile(a, b)
        &&& s.map.measure() == m0.measure()
        &&& s.map.wf()
    }
}

/// A lookup that finds its entry in the table changes nothing.
#[verifier::spinoff_prover]
proof fn lemma_lookup_hit(
    e0: Engine,
    cells: Seq<(i64, i64)>,
    results: Seq<SearchResult>,
    s: Engine,
    s2: Engine,
    n: int,
    keep: bool,
)
    requires
        cells.len() == results.len(),
        e0.map.wf(),
        e0.map.moves().no_duplicates(),
        forall|i: int| 0 <= i < cells.len() ==> is_candidate(e0.map.moves(), MOVE_DIST as int, #[trigger] cells[i]),
        keep ==> forall|i: int|
            0 <= i < cells.len() ==> write_keeps_stones(e0.map.board(), (#[trigger] cells[i]).0 as int, cells[i].1 as int),
        0 <= n < cells.len(),
        lookups_kept(e0, cells, results, s, n, keep),
        looked_up(s, s2, cells[n].0, cells[n].1, results[n]),
        s.tt@.contains_key(move_key(e0.map, cells[n])),
    ensures
        lookups_kept(e0, cells, results, s2, n + 1, keep),
{
    let m0 = e0.map;
    let h = move_key(m0, cells[n]);
    assert(h == s.map.hash() ^ tile_hash(cells[n].0, cells[n].1, player_of(s.map.depth())));
    assert(e0.position() == m0);
    assert(e0.table() == e0.tt@);
    assert forall|j: int| 0 <= j < n + 1 implies #[trigger] found_as(e0, cells, results, j, keep) by {
        if j == n && !e0.tt@.contains_key(h) {
            if keep {
                let i = choose|i: int| 0 <= i < n && move_key(m0, cells[i]) == h;
                assert(results[j] == results[i]);
            }
        }
    }
    assert forall|k: u64| #[trigger] s2.tt@.contains_key(k) implies e0.tt@.contains_key(k) || exists|j: int|
        0 <= j < n + 1 && move_key(m0, cells[j]) == k by {
        if !e0.tt@.contains_key(k) {
            let j = choose|j: int| 0 <= j < n && move_key(m0, cells[j]) == k;
        }
    }
    assert forall|j: int|
        0 <= j < n + 1 implies #[trigger] s2.tt@.contains_key(move_key(m0, cells[j])) && s2.tt@[move_key(m0, cells[j])]
        == results[j] by {
    }
}

/// A lookup that misses the table plays the move, puts the measure after it
/// in the table and takes the move back.
#[verifier::spinoff_prover]
#[verifier::rlimit(40)]
proof fn lemma_lookup_miss(
    e0: Engine,
    cells: Seq<(i64, i64)>,
    results: Seq<SearchResult>,
    s: Engine,
    s2: Engine,
    n: int,
    keep: bool,
)
    requires
        cells.len() == results.len(),
        e0.map.wf(),
        e0.map.moves().no_duplicates(),
        forall|i: int| 0 <= i < cells.len() ==> is_candidate(e0.map.moves(), MOVE_DIST as int, #[trigger] cells[i]),
        keep ==> forall|i: int|
            0 <= i < cells.len() ==> write_keeps_stones(e0.map.board(), (#[trigger] cells[i]).0 as int, cells[i].1 as int),
        0 <= n < cells.len(),
        lookups_kept(e0, cells, results, s, n, keep),
        looked_up(s, s2, cells[n].0, cells[n].1, results[n]),
        !s.tt@.contains_key(move_key(e0.map, cells[n])),
    ensures
        lookups_kept(e0, cells, results, s2, n + 1, keep),
{
    let m0 = e0.map;
    let c = cells[n];
    let r = results[n];
    let h = move_key(m0, c);
    assert(h == s.map.hash() ^ tile_hash(c.0, c.1, player_of(s.map.depth())));
    assert(e0.position() == m0);
    assert(e0.table() == e0.tt@);
    let after = choose|after: GameMap|
        {
            &&& #[trigger] s.map.played(after, c.0, c.1)
            &&& r == (SearchResult { score: after.measure(), bound: SearchBound::Exact, depth: after.depth() })
            &&& s2.tt@ == s.tt@.insert(after.hash(), r)
            &&& after.taken_back(s2.map)
        };
    assert(is_candidate(m0.moves(), MOVE_DIST as int, c));
    lemma_lone_candidate_empty(m0, c);
    assert(s.map.board().tile(c.0 as int, c.1 as int) == Tile::Empty);
    lemma_lookup_facts(s.map, after, s2.map, c.0, c.1);
    lemma_place_undo(s.map, after, s2.map, c.0, c.1);
    if keep {
        assert(write_keeps_stones(e0.map.board(), c.0 as int, c.1 as int));
        assert forall|a: int, b: int|
            !(a == c.0 && b == c.1) implies #[trigger] after_write(
            c.0 as int,
            c.1 as int,
            Tile::Empty,
            a,
            b,
            s.map.board().tile(a, b),
        ) == s.map.board().tile(a, b) by {
            assert(s.map.board().tile(a, b) == m0.board().tile(a, b));
            assert(after_write(c.0 as int, c.1 as int, Tile::Empty, a, b, m0.board().tile(a, b)) == m0.board().tile(a, b));
        }
        assert(write_keeps_stones(s.map.board(), c.0 as int, c.1 as int));
        assert forall|a: int, b: int| #[trigger] s2.map.board().tile(a, b) == m0.board().tile(a, b) by {
            assert(s.map.board().tile(a, b) == m0.board().tile(a, b));
        }
        lemma_wf_alike(m0, s2.map);
        lemma_played_alike(m0, s.map, after, c.0, c.1);
    }
    assert forall|j: int| 0 <= j < n + 1 implies #[trigger] found_as(e0, cells, results, j, keep) by {
        if j == n {
            assert(!e0.tt@.contains_key(h));
        }
    }
    assert forall|j: int|
        0 <= j < n + 1 implies #[trigger] s2.tt@.contains_key(move_key(m0, cells[j])) && s2.tt@[move_key(m0, cells[j])]
        == results[j] by {
        if j < n {
            assert(s.tt@.contains_key(move_key(m0, cells[j])));
        }
    }
    assert forall|k: u64| #[trigger] s2.tt@.contains_key(k) implies e0.tt@.contains_key(k) || exists|j: int|
        0 <= j < n + 1 && move_key(m0, cells[j]) == k by {
        if !e0.tt@.contains_key(k) && k != h {
            assert(s.tt@.contains_key(k));
            let j = choose|j: int| 0 <= j < n && move_key(m0, cells[j]) == k;
        }
    }
    assert forall|k: u64| #[trigger] e0.tt@.contains_key(k) implies s2.tt@.contains_key(k) && s2.tt@[k] == e0.tt@[k] by {
        assert(s.tt@.contains_key(k));
    }
    assert forall|a: int, b: int| m0.board().tile(a, b) == Tile::Empty implies #[trigger] s2.map.board().tile(a, b)
        == Tile::Empty by {
        assert(s.map.board().tile(a, b) == Tile::Empty);
    }
    assert(s2.map.moves() =~= m0.moves());
}

/// The first `n` lookups of a run.
proof fn lemma_lookups_prefix(
    e0: Engine,
    cells: Seq<(i64, i64)>,
    results: Seq<SearchResult>,
    e1: Engine,
    states: Seq<Engine>,
    n: int,
    keep: bool,
)
    requires
        run_through(e0, cells, results, e1, states),
        cells.len() == results.len(),
        e0.map.wf(),
        e0.map.moves().no_duplicates(),
        forall|i: int| 0 <= i < cells.len() ==> is_candidate(e0.map.moves(), MOVE_DIST as int, #[trigger] cells[i]),
        keep ==> forall|i: int|
            0 <= i < cells.len() ==> write_keeps_stones(e0.map.board(), (#[trigger] cells[i]).0 as int, cells[i].1 as int),
        0 <= n <= cells.len(),
    ensures
        lookups_kept(e0, cells, results, states[n], n, keep),
    decreases n,
{
    let m0 = e0.map;
    if n == 0 {
        assert(states[0].map == m0);
        assert(states[0].tt@ == e0.tt@);
        if keep {
            lemma_wf_alike(m0, states[0].map);
        }
        assert(lookups_kept(e0, cells, results, states[0], 0, keep));
    } else {
        lemma_lookups_prefix(e0, cells, results, e1, states, n - 1, keep);
        assert(looked_up(states[n - 1], states[n - 1 + 1], cells[n - 1].0, cells[n - 1].1, results[n - 1]));
        if states[n - 1].tt@.contains_key(move_key(m0, cells[n - 1])) {
            lemma_lookup_hit(e0, cells, results, states[n - 1], states[n], n - 1, keep);
        } else {
            lemma_lookup_miss(e0, cells, results, states[n - 1], states[n], n - 1, keep);
        }
    }
}

/// The write of no candidate move of `e0` empties a stone of its board.
pub open spec fn candidates_keep_stones(e0: Engine) -> bool {
    forall|c: (i64, i64)|
        is_candidate(e0.position().moves(), MOVE_DIST as int, c) ==> #[trigger] write_keeps_stones(
            e0.position().board(),
            c.0 as int,
            c.1 as int,
        )
}

/// The candidate moves that the engine scored, going from `e0` to `e1`,
/// where no cell is played twice: the hash comes back; the table keeps its
/// entries and holds, under the key of each move, the result found for it;
/// that result is the table's entry where there was one; and, where the
/// write of no candidate move empties a stone, the tiles and the measure
/// come back and each result is the measure after its move (or, where two
/// moves give the same hash, what the earlier one found).
pub proof fn lemma_scored_lookups(
    e0: Engine,
    e1: Engine,
    scored: Seq<((i64, i64), SearchResult)>,
    order: Seq<((i64, i64), SearchResult)>,
)
    requires
        ranked_of(e0, e1, scored, order),
        e0.position().wf(),
        e0.position().moves().no_duplicates(),
    ensures
        e1.position().hash() == e0.position().hash(),
        forall|k: u64| #[trigger] e0.table().contains_key(k) ==> e1.table().contains_key(k) && e1.table()[k] == e0.table()[k],
        forall|j: int|
            0 <= j < scored.len() ==> #[trigger] e1.table().contains_key(move_key(e0.position(), scored[j].0))
                && e1.table()[move_key(e0.position(), scored[j].0)] == scored[j].1,
        forall|j: int|
            0 <= j < scored.len() ==> #[trigger] found_as(
                e0,
                cells_of(scored),
                results_of(scored),
                j,
                candidates_keep_stones(e0),
            ),
        candidates_keep_stones(e0) ==> {
            &&& forall|a: int, b: int| #[trigger] e1.position().board().tile(a, b) == e0.position().board().tile(a, b)
            &&& e1.position().measure() == e0.position().measure()
        },
{
    let keep = candidates_keep_stones(e0);
    let cells = cells_of(scored);
    let results = results_of(scored);
    let states = choose|states: Seq<Engine>| run_through(e0, cells, results, e1, states);
    assert forall|i: int| 0 <= i < cells.len() implies is_candidate(e0.map.moves(), MOVE_DIST as int, #[trigger] cells[i]) by {
        assert(cells[i] == scored[i].0);
    }
    if keep {
        assert forall|i: int| 0 <= i < cells.len() implies write_keeps_stones(
            e0.map.board(),
            (#[trigger] cells[i]).0 as int,
            cells[i].1 as int,
        ) by {
            assert(cells[i] == scored[i].0);
            assert(is_candidate(e0.position().moves(), MOVE_DIST as int, cells[i]));
        }
    }
    lemma_lookups_prefix(e0, cells, results, e1, states, cells.len() as int, keep);
    assert(states[cells.len() as int].map == e1.map);
    assert(states[cells.len() as int].tt@ == e1.tt@);
    assert forall|j: int| 0 <= j < scored.len() implies #[trigger] e1.table().contains_key(move_key(e0.position(), scored[j].0))
        && e1.table()[move_key(e0.position(), scored[j].0)] == scored[j].1 by {
        assert(cells[j] == scored[j].0);
        assert(results[j] == scored[j].1);
    }
}

/// The key under which the table holds the result of playing at `c` in
/// position `m`: the hash that the move gives where `c` is empty.
pub open spec fn move_key(m: GameMap, c: (i64, i64)) -> u64 {
    m.hash() ^ tile_hash(c.0, c.1, player_of(m.depth()))
}

/// The keys of the first `k` candidates stay in a table that only grows, and
/// the key of candidate `k` joins them.
proof fn lemma_keys_kept(
    t0: Map<u64, SearchResult>,
    t1: Map<u64, SearchResult>,
    m: GameMap,
    cands: Seq<(i64, i64)>,
    k: int,
)
    requires
        0 <= k < cands.len(),
        t0.dom().subset_of(t1.dom()),
        forall|j: int| 0 <= j < k ==> #[trigger] t0.contains_key(move_key(m, cands[j])),
        t1.contains_key(move_key(m, cands[k])),
    ensures
        forall|j: int| 0 <= j < k + 1 ==> #[trigger] t1.contains_key(move_key(m, cands[j])),
{
    assert forall|j: int| 0 <= j < k + 1 implies #[trigger] t1.contains_key(move_key(m, cands[j])) by {
        if j < k {
            assert(t0.contains_key(move_key(m, cands[j])));
        }
    }
}

/// The greater of two measures; `b` where they tie.
pub open spec fn max_of(a: GameMeasure, b: GameMeasure) -> GameMeasure {
    if score_order(a, b) == 1 {
        a
    } else {
        b
    }
}

/// The smaller of two measures; `a` where they tie.
pub open spec fn min_of(a: GameMeasure, b: GameMeasure) -> GameMeasure {
    if score_order(a, b) == 1 {
        b
    } else {
        a
    }
}

/// The window (lo, hi) of a search that started from (alpha, beta), once
/// the moves tried have scored `s`: X raises lo, O lowers hi.
pub open spec fn window(x_moves: bool, alpha: GameMeasure, beta: GameMeasure, s: Seq<GameMeasure>) -> (
    GameMeasure,
    GameMeasure,
)
    decreases s.len(),
{
    if s.len() == 0 {
        (alpha, beta)
    } else {
        let w = window(x_moves, alpha, beta, s.drop_last());
        if x_moves {
            (max_of(w.0, s.last()), w.1)
        } else {
            (w.0, min_of(w.1, s.last()))
        }
    }
}

/// The window is closed: lo has reached hi.
pub open spec fn shut(w: (GameMeasure, GameMeasure)) -> bool {
    score_order(w.0, w.1) >= 0
}

/// The best of the scores `s` for the player to move, starting from the
/// measure of a loss: the greatest for X, the least for O.
pub open spec fn best_score(x_moves: bool, s: Seq<GameMeasure>) -> GameMeasure
    decreases s.len(),
{
    if s.len() == 0 {
        if x_moves {
            lowest_measure()
        } else {
            highest_measure()
        }
    } else if x_moves {
        max_of(best_score(x_moves, s.drop_last()), s.last())
    } else {
        min_of(best_score(x_moves, s.drop_last()), s.last())
    }
}

/// `e1` and `r` are what a search of the position of `e0` up to `max_depth`
/// moves, within the window (alpha, beta), gives. A terminal position gives
/// its measure. Else the candidate moves are looked up (`scored`), tried in
/// the order in which the player to move ranks them (`order`), and scored
/// in turn (`scores`, passing through `states`) until the window closes:
/// then the last score is a bound, Lower for X and Upper for O; where it
/// never closes, the best score is exact.
pub closed spec fn searched(
    e0: Engine,
    e1: Engine,
    max_depth: u64,
    alpha: GameMeasure,
    beta: GameMeasure,
    r: SearchResult,
) -> bool
    decreases max_depth + 2 - e0.position().depth(), 2int,
{
    if is_terminal(e0.map, max_depth) {
        &&& r == (SearchResult { score: e0.map.measure(), bound: SearchBound::Exact, depth: e0.map.depth() })
        &&& e1.map == e0.map
        &&& e1.tt@ == e0.tt@
    } else {
        exists|
            scored: Seq<((i64, i64), SearchResult)>,
            order: Seq<((i64, i64), SearchResult)>,
            states: Seq<Engine>,
            scores: Seq<GameMeasure>,
        |
            #[trigger] search_plan(e0, e1, max_depth, alpha, beta, r, scored, order, states, scores)
                && search_steps(e0, max_depth, alpha, beta, order, states, scores)
    }
}

/// What a search of the position of `e0` that is not terminal does, but for
/// scoring its moves: the candidate moves, by row then column, are looked
/// up (`scored`), ranked for the player to move (`order`), and the first of
/// them scored (`scores`, passing through `states`); the window stays open
/// until the last score, and the result is that bound or, where every move
/// was scored without closing the window, the best score.
pub closed spec fn search_plan(
    e0: Engine,
    e1: Engine,
    max_depth: u64,
    alpha: GameMeasure,
    beta: GameMeasure,
    r: SearchResult,
    scored: Seq<((i64, i64), SearchResult)>,
    order: Seq<((i64, i64), SearchResult)>,
    states: Seq<Engine>,
    scores: Seq<GameMeasure>,
) -> bool {
    let x_moves = player_of(e0.map.depth()) == Tile::X;
    let n = scores.len();
    &&& !is_terminal(e0.map, max_depth)
    &&& cells_of_increasing(scored)
    &&& forall|i: int| 0 <= i < scored.len() ==> is_candidate(e0.map.moves(), MOVE_DIST as int, (#[trigger] scored[i]).0)
    &&& forall|c: (i64, i64)| is_candidate(e0.map.moves(), MOVE_DIST as int, c) ==> exists|i: int|
        0 <= i < scored.len() && (#[trigger] scored[i]).0 == c
    &&& states.len() == n + 1
    &&& looked_up_all(e0, cells_of(scored), results_of(scored), states[0])
    &&& order.to_multiset() == scored.to_multiset()
    &&& ranked(order, x_moves)
    &&& n <= order.len()
    &&& forall|i: int| 0 <= i <= n ==> (#[trigger] states[i]).map.depth() == e0.map.depth()
    &&& forall|i: int| 1 <= i < n ==> !shut(#[trigger] window(x_moves, alpha, beta, scores.take(i)))
    &&& e1.map == states[n as int].map
    &&& e1.tt@ == states[n as int].tt@
    &&& if n > 0 && shut(window(x_moves, alpha, beta, scores)) {
        r == (SearchResult {
            score: scores[n - 1],
            bound: if x_moves {
                SearchBound::Lower
            } else {
                SearchBound::Upper
            },
            depth: max_depth,
        })
    } else {
        &&& n == order.len()
        &&& r == (SearchResult { score: best_score(x_moves, scores), bound: SearchBound::Exact, depth: max_depth })
    }
}

/// Move `i` of `order`, tried from `states[i]` with the window that the
/// scores before it left, scores `scores[i]` and leads to `states[i + 1]`.
pub closed spec fn search_steps(
    e0: Engine,
    max_depth: u64,
    alpha: GameMeasure,
    beta: GameMeasure,
    order: Seq<((i64, i64), SearchResult)>,
    states: Seq<Engine>,
    scores: Seq<GameMeasure>,
) -> bool
    decreases max_depth + 2 - e0.position().depth(), 1int,
{
    let x_moves = player_of(e0.map.depth()) == Tile::X;
    forall|i: int|
        #![trigger scores[i]]
        0 <= i < scores.len() ==> {
            &&& states[i].map.depth() == e0.map.depth()
            &&& scored_move(
                states[i],
                states[i + 1],
                max_depth,
                window(x_moves, alpha, beta, scores.take(i)).0,
                window(x_moves, alpha, beta, scores.take(i)).1,
                order[i].0.0,
                order[i].0.1,
                order[i].1,
                scores[i],
            )
        }
}

/// `e1` and `s` are what scoring the move (x, y) of the position of `e0`,
/// whose result so far is `eval`, gives in a search up to `max_depth` moves
/// within the window (alpha, beta): `eval`'s score where `eval` settles the
/// position; else the move is played, the position after it searched, that
/// result put in the table under the hash of the position the search ends
/// at, and the move taken back.
pub closed spec fn scored_move(
    e0: Engine,
    e1: Engine,
    max_depth: u64,
    alpha: GameMeasure,
    beta: GameMeasure,
    x: i64,
    y: i64,
    eval: SearchResult,
    s: GameMeasure,
) -> bool
    decreases max_depth + 2 - e0.position().depth(), 0int,
{
    if eval.valid_spec(max_depth) {
        &&& s == eval.score
        &&& e1.map == e0.map
        &&& e1.tt@ == e0.tt@
    } else {
        &&& e0.map.depth() < max_depth + 2
        &&& exists|start: Engine, end: Engine, res: SearchResult|
            #[trigger] move_searched(e0, e1, x, y, s, start, end, res) && searched(
                start,
                end,
                max_depth,
                alpha,
                beta,
                res,
            )
    }
}

/// Scoring the move (x, y) from `e0` went through the search of `start`,
/// the position after the move, which ended at `end` with result `res`:
/// `s` is its score, the result joined the table under the hash of `end`,
/// and taking the move back led to `e1`.
pub closed spec fn move_searched(
    e0: Engine,
    e1: Engine,
    x: i64,
    y: i64,
    s: GameMeasure,
    start: Engine,
    end: Engine,
    res: SearchResult,
) -> bool {
    &&& e0.map.played(start.map, x, y)
    &&& start.tt@ == e0.tt@
    &&& s == res.score
    &&& e1.tt@ == end.tt@.insert(end.map.hash(), res)
    &&& end.map.taken_back(e1.map)
}

/// A terminal position is searched into its measure, with nothing changed.
proof fn lemma_searched_terminal(e0: Engine, e1: Engine, max_depth: u64, alpha: GameMeasure, beta: GameMeasure)
    requires
        is_terminal(e0.map, max_depth),
        e1.map == e0.map,
        e1.tt@ == e0.tt@,
    ensures
        searched(
            e0,
            e1,
            max_depth,
            alpha,
            beta,
            SearchResult { score: e0.map.measure(), bound: SearchBound::Exact, depth: e0.map.depth() },
        ),
{
}

/// The first moves of `order` were scored in turn from `states[0]` on, as a
/// search of the position of `e0` scores them: `scores` are their scores,
/// `states` the engines passed through, and the window stayed open after
/// each of them but the last.
#[verifier::opaque]
spec fn tried(
    e0: Engine,
    max_depth: u64,
    alpha: GameMeasure,
    beta: GameMeasure,
    order: Seq<((i64, i64), SearchResult)>,
    states: Seq<Engine>,
    scores: Seq<GameMeasure>,
) -> bool {
    let x_moves = player_of(e0.map.depth()) == Tile::X;
    &&& states.len() == scores.len() + 1
    &&& scores.len() <= order.len()
    &&& forall|i: int| 0 <= i <= scores.len() ==> (#[trigger] states[i]).map.depth() == e0.map.depth()
    &&& forall|i: int| 1 <= i < scores.len() ==> !shut(#[trigger] window(x_moves, alpha, beta, scores.take(i)))
    &&& search_steps(e0, max_depth, alpha, beta, order, states, scores)
}

/// Nothing is tried yet.
proof fn lemma_tried_start(
    e0: Engine,
    max_depth: u64,
    alpha: GameMeasure,
    beta: GameMeasure,
    order: Seq<((i64, i64), SearchResult)>,
    s0: Engine,
)
    requires
        s0.map.depth() == e0.map.depth(),
    ensures
        tried(e0, max_depth, alpha, beta, order, seq![s0], Seq::empty()),
{
    reveal(tried);
    assert(search_steps(e0, max_depth, alpha, beta, order, seq![s0], Seq::empty()));
}

/// The candidate moves of the position of `e0`, by row then column, were
/// looked up into `scored`, from `e0` to `s0`, and `order` ranks them for
/// the player to move.
#[verifier::opaque]
spec fn moves_ordered(
    e0: Engine,
    scored: Seq<((i64, i64), SearchResult)>,
    order: Seq<((i64, i64), SearchResult)>,
    s0: Engine,
) -> bool {
    &&& cells_of_increasing(scored)
    &&& forall|i: int| 0 <= i < scored.len() ==> is_candidate(e0.map.moves(), MOVE_DIST as int, (#[trigger] scored[i]).0)
    &&& forall|c: (i64, i64)| is_candidate(e0.map.moves(), MOVE_DIST as int, c) ==> exists|i: int|
        0 <= i < scored.len() && (#[trigger] scored[i]).0 == c
    &&& looked_up_all(e0, cells_of(scored), results_of(scored), s0)
    &&& order.to_multiset() == scored.to_multiset()
    &&& ranked(order, player_of(e0.map.depth()) == Tile::X)
}

/// One more move tried.
#[verifier::spinoff_prover]
#[verifier::rlimit(50)]
proof fn lemma_tried_step(
    e0: Engine,
    max_depth: u64,
    alpha: GameMeasure,
    beta: GameMeasure,
    order: Seq<((i64, i64), SearchResult)>,
    states: Seq<Engine>,
    scores: Seq<GameMeasure>,
    next: Engine,
    score: GameMeasure,
)
    requires
        tried(e0, max_depth, alpha, beta, order, states, scores),
        scores.len() < order.len(),
        next.map.depth() == e0.map.depth(),
        scores.len() > 0 ==> !shut(window(player_of(e0.map.depth()) == Tile::X, alpha, beta, scores)),
        scored_move(
            states[scores.len() as int],
            next,
            max_depth,
            window(player_of(e0.map.depth()) == Tile::X, alpha, beta, scores).0,
            window(player_of(e0.map.depth()) == Tile::X, alpha, beta, scores).1,
            order[scores.len() as int].0.0,
            order[scores.len() as int].0.1,
            order[scores.len() as int].1,
            score,
        ),
    ensures
        tried(e0, max_depth, alpha, beta, order, states.push(next), scores.push(score)),
{
    reveal(tried);
    let x_moves = player_of(e0.map.depth()) == Tile::X;
    let k = scores.len() as int;
    let states2 = states.push(next);
    let scores2 = scores.push(score);
    assert(scores2.take(k) =~= scores);
    assert forall|i: int| 0 <= i <= k + 1 implies (#[trigger] states2[i]).map.depth() == e0.map.depth() by {
        if i <= k {
            assert(states2[i] == states[i]);
        }
    }
    assert forall|i: int| 1 <= i < k + 1 implies !shut(#[trigger] window(x_moves, alpha, beta, scores2.take(i))) by {
        assert(scores2.take(i) =~= scores.take(i));
    }
    assert forall|i: int|
        #![trigger scores2[i]]
        0 <= i < scores2.len() implies {
            &&& states2[i].map.depth() == e0.map.depth()
            &&& scored_move(
                states2[i],
                states2[i + 1],
                max_depth,
                window(x_moves, alpha, beta, scores2.take(i)).0,
                window(x_moves, alpha, beta, scores2.take(i)).1,
                order[i].0.0,
                order[i].0.1,
                order[i].1,
                scores2[i],
            )
        } by {
        if i < k {
            assert(states2[i] == states[i]);
            assert(states2[i + 1] == states[i + 1]);
            assert(scores2.take(i) =~= scores.take(i));
            assert(scores2[i] == scores[i]);
            assert(scores[i] == scores[i]);
        } else {
            assert(states2[i] == states[k]);
        }
    }
    assert(search_steps(e0, max_depth, alpha, beta, order, states2, scores2));
}

/// The scores of the moves tried, and where they led, give the search's
/// result.
proof fn lemma_searched_from_tried(
    e0: Engine,
    e1: Engine,
    max_depth: u64,
    alpha: GameMeasure,
    beta: GameMeasure,
    r: SearchResult,
    scored: Seq<((i64, i64), SearchResult)>,
    order: Seq<((i64, i64), SearchResult)>,
    states: Seq<Engine>,
    scores: Seq<GameMeasure>,
)
    requires
        tried(e0, max_depth, alpha, beta, order, states, scores),
        !is_terminal(e0.map, max_depth),
        moves_ordered(e0, scored, order, states[0]),
        e1.map == states[scores.len() as int].map,
        e1.tt@ == states[scores.len() as int].tt@,
        if scores.len() > 0 && shut(window(player_of(e0.map.depth()) == Tile::X, alpha, beta, scores)) {
            r == (SearchResult {
                score: scores[scores.len() - 1],
                bound: if player_of(e0.map.depth()) == Tile::X {
                    SearchBound::Lower
                } else {
                    SearchBound::Upper
                },
                depth: max_depth,
            })
        } else {
            &&& scores.len() == order.len()
            &&& r == (SearchResult {
                score: best_score(player_of(e0.map.depth()) == Tile::X, scores),
                bound: SearchBound::Exact,
                depth: max_depth,
            })
        },
    ensures
        searched(e0, e1, max_depth, alpha, beta, r),
{
    reveal(tried);
    reveal(moves_ordered);
    assert(search_plan(e0, e1, max_depth, alpha, beta, r, scored, order, states, scores));
}

/// A search depends on the engine it starts from only through its position
/// and table.
proof fn lemma_searched_start(
    e0: Engine,
    e0b: Engine,
    e1: Engine,
    max_depth: u64,
    alpha: GameMeasure,
    beta: GameMeasure,
    r: SearchResult,
)
    requires
        searched(e0, e1, max_depth, alpha, beta, r),
        e0b.map == e0.map,
        e0b.tt@ == e0.tt@,
    ensures
        searched(e0b, e1, max_depth, alpha, beta, r),
{
    if !is_terminal(e0.map, max_depth) {
        let (scored, order, states, scores) = choose|
            scored: Seq<((i64, i64), SearchResult)>,
            order: Seq<((i64, i64), SearchResult)>,
            states: Seq<Engine>,
            scores: Seq<GameMeasure>,
        |
            search_plan(e0, e1, max_depth, alpha, beta, r, scored, order, states, scores) && search_steps(
                e0,
                max_depth,
                alpha,
                beta,
                order,
                states,
                scores,
            );
        lemma_looked_up_all_start(e0, e0b, cells_of(scored), results_of(scored), states[0]);
        assert(search_plan(e0b, e1, max_depth, alpha, beta, r, scored, order, states, scores));
        assert(search_steps(e0b, max_depth, alpha, beta, order, states, scores));
    }
}

/// A move whose result settles the position scores that result.
proof fn lemma_scored_settled(
    e0: Engine,
    e1: Engine,
    max_depth: u64,
    alpha: GameMeasure,
    beta: GameMeasure,
    x: i64,
    y: i64,
    eval: SearchResult,
)
    requires
        eval.valid_spec(max_depth),
        e1.map == e0.map,
        e1.tt@ == e0.tt@,
    ensures
        scored_move(e0, e1, max_depth, alpha, beta, x, y, eval, eval.score),
{
}

/// A move whose result does not settle the position scores what a search
/// of the position after it finds.
proof fn lemma_scored_searched(
    e0: Engine,
    e1: Engine,
    max_depth: u64,
    alpha: GameMeasure,
    beta: GameMeasure,
    x: i64,
    y: i64,
    eval: SearchResult,
    start: Engine,
    end: Engine,
    res: SearchResult,
)
    requires
        !eval.valid_spec(max_depth),
        e0.map.depth() < max_depth + 2,
        e0.map.played(start.map, x, y),
        start.tt@ == e0.tt@,
        searched(start, end, max_depth, alpha, beta, res),
        e1.tt@ == end.tt@.insert(end.map.hash(), res),
        end.map.taken_back(e1.map),
    ensures
        scored_move(e0, e1, max_depth, alpha, beta, x, y, eval, res.score),
{
    assert(move_searched(e0, e1, x, y, res.score, start, end, res));
}

/// The search engine: a position and a table of the results found for the
/// positions met, by hash.
pub struct Engine {
    map: GameMap,
    tt: HashMap<u64, SearchResult>,
    stats: Stats,
}

impl Engine {
    pub closed spec fn position(self) -> GameMap {
        self.map
    }

    pub closed spec fn table(self) -> Map<u64, SearchResult> {
        self.tt@
    }

    pub closed spec fn counters(self) -> Stats {
        self.stats
    }

    /// An engine for position `map`, whose table holds the measure of `map`.
    pub fn new(map: GameMap) -> (e: Engine)
        ensures
            e.position() == map,
            e.table() == Map::<u64, SearchResult>::empty().insert(
                map.hash(),
                (SearchResult { score: map.measure(), bound: SearchBound::Exact, depth: 0 }),
            ),
            stats_zero(e.counters()),
    {
        let mut eng = Engine { map, tt: HashMap::new(), stats: Stats::default() };
        let h = eng.map.get_hash();
        let score = *eng.map.get_heuristic();
        eng.tt.insert(h, SearchResult { score, bound: SearchBound::Exact, depth: 0 });
        eng
    }

    /// The position.
    pub fn get_map(&self) -> (r: &GameMap)
        ensures
            *r == self.position(),
    {
        &self.map
    }

    /// The counters of the last search.
    pub fn get_stats(&self) -> (r: Stats)
        ensures
            r == self.counters(),
    {
        self.stats
    }

    /// The cells near the played cells, as `is_candidate` tells, by row then column.
    pub fn move_candidates(&self, max_dist: i64) -> (r: Vec<(i64, i64)>)
        requires
            self.position().wf(),
            max_dist <= MAX_MOVE_DIST,
        ensures
            cells_increasing(r@),
            forall|c: (i64, i64)| #[trigger] r@.contains(c) == is_candidate(self.position().moves(), max_dist as int, c),
    {
        if max_dist < 0 {
            let r: Vec<(i64, i64)> = Vec::new();
            proof {
                assert forall|c: (i64, i64)| #[trigger] r@.contains(c) == is_candidate(
                    self.position().moves(),
                    max_dist as int,
                    c,
                ) by {
                    if near_any(self.position().moves(), c, max_dist as int) {
                        let i = choose|i: int|
                            0 <= i < self.position().moves().len() && near(
                                c,
                                #[trigger] self.position().moves()[i],
                                max_dist as int,
                            );
                    }
                }
            }
            return r;
        }
        let d = max_dist;
        let moves = self.map.get_move_list();
        let mut used: Vec<(i64, i64)> = Vec::new();
        let mut m: usize = 0;
        while m < moves.len()
            invariant
                m <= moves@.len(),
                used@ == moves@.subrange(0, m as int),
            decreases moves@.len() - m,
        {
            used.push(moves[m]);
            m += 1;
        }
        proof {
            assert(used@ =~= self.map.moves());
        }
        sort_cells(&mut used);
        let ghost s = used@;
        let n = used.len();
        proof {
            lemma_coord_bounds(self.map, s);
        }
        let mut x = i64::MIN;
        let mut start: usize = 0;
        let mut next: usize = 0;
        let mut stop: usize = 0;
        let mut candidates: Vec<(i64, i64)> = Vec::new();
        loop
            invariant
                s == used@,
                n == s.len(),
                cells_sorted(s),
                s.to_multiset() == self.map.moves().to_multiset(),
                forall|i: int| 0 <= i < n ==> -CELL_BOUND <= (#[trigger] s[i]).0 < CELL_BOUND && -CELL_BOUND <= s[i].1 < CELL_BOUND,
                0 <= d <= MAX_MOVE_DIST,
                start <= n,
                stop <= n,
                next <= n,
                x <= CELL_BOUND + d + 1,
                forall|j: int| 0 <= j < start ==> #[trigger] s[j].0 + d < x,
                forall|j: int| 0 <= j < stop ==> #[trigger] s[j].0 - d <= x - 1,
                forall|j: int| 0 <= j < next ==> #[trigger] s[j].0 < x,
                cells_increasing(candidates@),
                forall|k: int| 0 <= k < candidates@.len() ==> #[trigger] candidates@[k].0 < x,
                forall|c: (i64, i64)| #[trigger] candidates@.contains(c) == (c.0 < x && is_candidate(s, d as int, c)),
            ensures
                cells_increasing(candidates@),
                forall|c: (i64, i64)| #[trigger] candidates@.contains(c) == is_candidate(s, d as int, c),
            decreases CELL_BOUND + MAX_MOVE_DIST + 2 - x,
        {
            while start < n && used[start].0 + d < x
                invariant
                    s == used@,
                    n == s.len(),
                    start <= n,
                    forall|i: int| 0 <= i < n ==> -CELL_BOUND <= (#[trigger] s[i]).0 < CELL_BOUND && -CELL_BOUND <= s[i].1 < CELL_BOUND,
                    0 <= d <= MAX_MOVE_DIST,
                    forall|j: int| 0 <= j < start ==> #[trigger] s[j].0 + d < x,
                decreases n - start,
            {
                start += 1;
            }
            if start == n {
                proof {
                    assert forall|c: (i64, i64)| #[trigger] candidates@.contains(c) == is_candidate(s, d as int, c) by {
                        if c.0 >= x && near_any(s, c, d as int) {
                            let i = choose|i: int| 0 <= i < s.len() && near(c, #[trigger] s[i], d as int);
                            assert(s[i].0 + d < x);
                        }
                    }
                }
                break ;
            }
            if x < used[start].0 - d {
                proof {
                    lemma_no_candidates_before(s, d as int, start as int, x as int);
                    assert forall|c: (i64, i64)| #[trigger] candidates@.contains(c) == (c.0 < s[start as int].0 - d && is_candidate(s, d as int, c)) by {
                        if x <= c.0 < s[start as int].0 - d {
                            assert(!near_any(s, c, d as int));
                        }
                    }
                    assert forall|j: int| 0 <= j < start implies #[trigger] s[j].0 < s[start as int].0 - d by {
                        assert(s[j].0 + d < x);
                    }
                }
                next = start;
                x = used[start].0 - d;
            }
            proof {
                assert(cell_le(s[start as int], s[start as int]));
            }
            while stop < n && x >= used[stop].0 - d
                invariant
                    s == used@,
                    n == s.len(),
                    stop <= n,
                    forall|i: int| 0 <= i < n ==> -CELL_BOUND <= (#[trigger] s[i]).0 < CELL_BOUND && -CELL_BOUND <= s[i].1 < CELL_BOUND,
                    0 <= d <= MAX_MOVE_DIST,
                    forall|j: int| 0 <= j < stop ==> #[trigger] s[j].0 - d <= x,
                decreases n - stop,
            {
                stop += 1;
            }
            while next < n && used[next].0 < x
                invariant
                    s == used@,
                    n == s.len(),
                    next <= n,
                    forall|j: int| 0 <= j < next ==> #[trigger] s[j].0 < x,
                decreases n - next,
            {
                next += 1;
            }
            proof {
                if stop <= start {
                    assert(cell_le(s[stop as int], s[start as int]) || stop == start);
                }
                if next < start {
                    assert(s[next as int].0 + d < x);
                }
                assert forall|j: int| start <= j < stop implies -d <= x - #[trigger] s[j].0 <= d by {
                    if j > start {
                        assert(cell_le(s[start as int], s[j]));
                    }
                }
            }
            let mut intervals: Vec<(i64, i64)> = Vec::new();
            let mut j: usize = start;
            while j < stop
                invariant
                    s == used@,
                    n == s.len(),
                    start <= j <= stop <= n,
                    forall|i: int| 0 <= i < n ==> -CELL_BOUND <= (#[trigger] s[i]).0 < CELL_BOUND && -CELL_BOUND <= s[i].1 < CELL_BOUND,
                    0 <= d <= MAX_MOVE_DIST,
                    forall|i: int| start <= i < stop ==> -d <= x - #[trigger] s[i].0 <= d,
                    intervals@.len() == j - start,
                    forall|m: int| 0 <= m < j - start ==> (#[trigger] intervals@[m]).0 == interval_of(s[start + m], x as int, d as int).0
                        && intervals@[m].1 == interval_of(s[start + m], x as int, d as int).1,
                decreases stop - j,
            {
                let val = used[j];
                let lo = if val.1 - d > val.1 + (x - val.0) - d {
                    val.1 - d
                } else {
                    val.1 + (x - val.0) - d
                };
                let hi = if val.1 + d < val.1 + (x - val.0) + d {
                    val.1 + d
                } else {
                    val.1 + (x - val.0) + d
                };
                intervals.push((lo, hi));
                j += 1;
            }
            let ghost iv = intervals@;
            sort_cells(&mut intervals);
            let ghost t = intervals@;
            proof {
                lemma_row_union(s, iv, t, d as int, x, start as int, stop as int, CELL_BOUND as int);
            }
            let mut y = i64::MIN;
            let mut k: usize = 0;
            proof {
                assert forall|c: (i64, i64)| #[trigger] candidates@.contains(c) == ((c.0 < x || (c.0 == x && c.1 < y)) && is_candidate(s, d as int, c)) by {
                }
            }
            while k < intervals.len()
                invariant
                    s == used@,
                    n == s.len(),
                    cells_sorted(s),
                    forall|i: int| 0 <= i < n ==> -CELL_BOUND <= (#[trigger] s[i]).0 < CELL_BOUND && -CELL_BOUND <= s[i].1 < CELL_BOUND,
                    0 <= d <= MAX_MOVE_DIST,
                    t == intervals@,
                    cells_sorted(t),
                    forall|q: int| 0 <= q < t.len() ==> -CELL_BOUND - 2 * MAX_MOVE_DIST <= (#[trigger] t[q]).0 <= t[q].1 <= CELL_BOUND + 2 * MAX_MOVE_DIST,
                    forall|yy: int| #[trigger] in_union(t, yy) == near_any(s, (x, yy as i64), d as int) || !(i64::MIN <= yy <= i64::MAX),
                    k <= t.len(),
                    k == 0 ==> y == i64::MIN,
                    k > 0 ==> (forall|q: int| 0 <= q < k ==> (#[trigger] t[q]).1 < y),
                    k > 0 ==> (exists|p: int| 0 <= p < k && y == (#[trigger] t[p]).1 + 1),
                    row_state(s, x as int, y as int, next as int),
                    found_state(candidates@, s, d as int, x as int, y as int),
                    start <= next,
                decreases t.len() - k,
            {
                let (y_min, y_max) = intervals[k];
                let ghost y_prev = y;
                if y < y_min {
                    proof {
                        lemma_row_skip(s, t, d as int, x, y, y_min, k as int, next as int, candidates@);
                    }
                    y = y_min;
                }
                let ghost y_start = y;
                while y <= y_max
                    invariant
                        s == used@,
                        n == s.len(),
                        cells_sorted(s),
                        0 <= d <= MAX_MOVE_DIST,
                        t == intervals@,
                        k < t.len(),
                        t[k as int] == (y_min, y_max),
                        y_min <= y_max <= CELL_BOUND + 2 * MAX_MOVE_DIST,
                        y_min <= y_start <= y,
                        y > y_start ==> y <= y_max + 1,
                        y_start == y_min || y_start == y_prev,
                        forall|q: int| 0 <= q < k ==> (#[trigger] t[q]).1 < y,
                        forall|yy: int| #[trigger] in_union(t, yy) == near_any(s, (x, yy as i64), d as int) || !(i64::MIN <= yy <= i64::MAX),
                        row_state(s, x as int, y as int, next as int),
                        found_state(candidates@, s, d as int, x as int, y as int),
                        start <= next,
                    decreases y_max - y + 1,
                {
                    proof {
                        assert(in_union(t, y as int));
                        lemma_scan_step(candidates@, s, d as int, x, y, next as int);
                    }
                    if next < n && used[next].0 == x && used[next].1 == y {
                        next += 1;
                    } else {
                        candidates.push((x, y));
                    }
                    y += 1;
                }
                proof {
                    if y == y_start && y_start != y_min {
                        assert(y_start == y_prev);
                    }
                }
                k += 1;
            }
            proof {
                assert forall|c: (i64, i64)| #[trigger] candidates@.contains(c) == (c.0 < x + 1 && is_candidate(s, d as int, c)) by {
                    if c.0 == x && c.1 >= y && is_candidate(s, d as int, c) {
                        assert(in_union(t, c.1 as int));
                        let q = choose|q: int| 0 <= q < t.len() && (#[trigger] t[q]).0 <= c.1 <= t[q].1;
                        assert(t[q].1 < y);
                    }
                }
                assert forall|jj: int| 0 <= jj < next implies #[trigger] s[jj].0 < x + 1 by {
                }
            }
            x += 1;
        }
        proof {
            assert forall|c: (i64, i64)| #[trigger] candidates@.contains(c) == is_candidate(self.map.moves(), max_dist as int, c) by {
                lemma_candidate_permutation(s, self.map.moves(), d as int, c);
            }
        }
        candidates
    }

    /// The result found for playing at (x, y): the one in the table for the
    /// position that the move gives, else the measure after the move, which
    /// then joins the table.
    fn get_any_score(&mut self, x: i64, y: i64) -> (r: SearchResult)
        requires
            old(self).map.wf(),
            old(self).map.can_write(x, y),
            old(self).map.depth() < u64::MAX,
        ensures
            old(self).tt@.dom().subset_of(final(self).tt@.dom()),
            final(self).map.wf(),
            final(self).map.moves() == old(self).map.moves(),
            final(self).map.depth() == old(self).map.depth(),
            looked_up(*old(self), *final(self), x, y, r),
            old(self).map.board().tile(x as int, y as int) == Tile::Empty ==> {
                &&& final(self).map.hash() == old(self).map.hash()
                &&& final(self).tt@.contains_key(old(self).map.hash() ^ tile_hash(x, y, player_of(old(self).map.depth())))
            },
    {
        self.stats.get_any_score = self.stats.get_any_score.wrapping_add(1);
        let h = self.map.peek_hash(x, y);
        match self.tt.get(&h) {
            Some(found) => {
                let r = *found;
                self.stats.tt_hits = self.stats.tt_hits.wrapping_add(1);
                return r;
            },
            None => {},
        }
        self.stats.tt_non_hits = self.stats.tt_non_hits.wrapping_add(1);
        self.map.place(x, y);
        let ghost after = self.map;
        let result = SearchResult {
            score: *self.map.get_heuristic(),
            bound: SearchBound::Exact,
            depth: self.map.get_depth(),
        };
        let h2 = self.map.get_hash();
        self.tt.insert(h2, result);
        self.map.undo();
        proof {
            lemma_lookup_facts(old(self).map, after, self.map, x, y);
        }
        result
    }

    /// The score of playing at (x, y), whose result so far is `eval`: `eval`
    /// itself where it settles the position, else what a search of the
    /// position after the move finds, which then joins the table.
    fn get_score(
        &mut self,
        max_depth: u64,
        alpha: &GameMeasure,
        beta: &GameMeasure,
        x: i64,
        y: i64,
        eval: SearchResult,
    ) -> (r: GameMeasure)
        requires
            old(self).map.wf(),
            old(self).map.depth() < max_depth + 2,
            max_depth + 2 <= u64::MAX,
            moves_fit(old(self).map.moves(), max_depth + 2 - old(self).map.depth()),
            cell_fits((x, y), max_depth + 1 - old(self).map.depth()),
        ensures
            old(self).tt@.dom().subset_of(final(self).tt@.dom()),
            final(self).map.wf(),
            final(self).map.moves() == old(self).map.moves(),
            final(self).map.depth() == old(self).map.depth(),
            eval.valid_spec(max_depth) ==> r == eval.score && final(self).map == old(self).map
                && final(self).tt@ == old(self).tt@,
            scored_move(*old(self), *final(self), max_depth, *alpha, *beta, x, y, eval, r),
        decreases max_depth + 2 - old(self).map.depth(), 0int,
    {
        self.stats.get_score = self.stats.get_score.wrapping_add(1);
        if eval.is_valid(max_depth) {
            proof {
                lemma_scored_settled(*old(self), *self, max_depth, *alpha, *beta, x, y, eval);
            }
            return eval.score;
        }
        let ghost m0 = self.map.moves();
        self.map.place(x, y);
        proof {
            assert forall|i: int| 0 <= i < self.map.moves().len() implies cell_fits(
                #[trigger] self.map.moves()[i],
                max_depth + 2 - self.map.depth(),
            ) by {
                if i < m0.len() {
                    assert(self.map.moves()[i] == m0[i]);
                    assert(cell_fits(m0[i], max_depth + 2 - old(self).map.depth()));
                }
            }
        }
        let ghost start = *self;
        let result = self.alpha_beta(max_depth, *alpha, *beta);
        let ghost end = *self;
        let h = self.map.get_hash();
        self.tt.insert(h, result);
        self.map.undo();
        proof {
            lemma_scored_searched(*old(self), *self, max_depth, *alpha, *beta, x, y, eval, start, end, result);
        }
        result.score
    }

    /// The candidate moves, by row then column, each with the result that
    /// `get_any_score` finds for it.
    fn score_moves(&mut self) -> (v: Vec<((i64, i64), SearchResult)>)
        requires
            old(self).map.wf(),
            old(self).map.depth() < u64::MAX,
            moves_fit(old(self).map.moves(), 1),
        ensures
            old(self).tt@.dom().subset_of(final(self).tt@.dom()),
            final(self).map.wf(),
            final(self).map.moves() == old(self).map.moves(),
            final(self).map.depth() == old(self).map.depth(),
            cells_of_increasing(v@),
            forall|i: int| 0 <= i < v@.len() ==> is_candidate(old(self).map.moves(), MOVE_DIST as int, (#[trigger] v@[i]).0),
            forall|c: (i64, i64)| is_candidate(old(self).map.moves(), MOVE_DIST as int, c) ==> exists|i: int|
                0 <= i < v@.len() && (#[trigger] v@[i]).0 == c,
            looked_up_all(*old(self), cells_of(v@), results_of(v@), *final(self)),
            old(self).map.moves().no_duplicates() ==> {
                &&& final(self).map.hash() == old(self).map.hash()
                &&& forall|c: (i64, i64)|
                    is_candidate(old(self).map.moves(), MOVE_DIST as int, c) ==> #[trigger] final(self).tt@.contains_key(
                        move_key(old(self).map, c),
                    )
            },
    {
        let cands = self.move_candidates(MOVE_DIST);
        let ghost m0 = self.map.moves();
        let mut v: Vec<((i64, i64), SearchResult)> = Vec::new();
        proof {
            assert(run_through(*old(self), cells_of(v@), results_of(v@), *self, seq![*self]));
        }
        let mut k: usize = 0;
        while k < cands.len()
            invariant
                k <= cands@.len(),
                v@.len() == k,
                self.map.wf(),
                self.map.moves() == m0,
                self.map.depth() == old(self).map.depth(),
                self.map.depth() < u64::MAX,
                old(self).tt@.dom().subset_of(self.tt@.dom()),
                moves_fit(m0, 1),
                cells_increasing(cands@),
                forall|c: (i64, i64)| #[trigger] cands@.contains(c) == is_candidate(m0, MOVE_DIST as int, c),
                forall|i: int| 0 <= i < k ==> (#[trigger] v@[i]).0 == cands@[i],
                looked_up_all(*old(self), cells_of(v@), results_of(v@), *self),
                m0.no_duplicates() ==> {
                    &&& self.map.hash() == old(self).map.hash()
                    &&& forall|j: int| 0 <= j < k ==> #[trigger] self.tt@.contains_key(move_key(old(self).map, cands@[j]))
                },
            decreases cands@.len() - k,
        {
            let c = cands[k];
            proof {
                assert(cands@.contains(c));
                lemma_candidate_fits(m0, 1, c);
            }
            let ghost mid = *self;
            let ghost v0 = v@;
            let ghost before = *self;
            proof {
                if m0.no_duplicates() {
                    lemma_lone_candidate_empty(before.map, c);
                }
            }
            let r = self.get_any_score(c.0, c.1);
            proof {
                if m0.no_duplicates() {
                    lemma_lone_candidate_empty(before.map, c);
                    lemma_keys_kept(before.tt@, self.tt@, old(self).map, cands@, k as int);
                }
            }
            v.push((c, r));
            proof {
                lemma_looked_up_step(*old(self), v0, mid, *self, c, r);
            }
            k += 1;
        }
        proof {
            assert forall|i: int, j: int| 0 <= i < j < v@.len() implies cell_lt((#[trigger] v@[i]).0, (#[trigger] v@[j]).0) by {
                assert(v@[i].0 == cands@[i]);
                assert(v@[j].0 == cands@[j]);
            }
            assert forall|i: int| 0 <= i < v@.len() implies is_candidate(m0, MOVE_DIST as int, (#[trigger] v@[i]).0) by {
                assert(v@[i].0 == cands@[i]);
                assert(cands@.contains(cands@[i]));
            }
            assert forall|c: (i64, i64)| is_candidate(m0, MOVE_DIST as int, c) implies exists|i: int|
                0 <= i < v@.len() && (#[trigger] v@[i]).0 == c by {
                assert(cands@.contains(c));
                let i = choose|i: int| 0 <= i < cands@.len() && cands@[i] == c;
                assert(v@[i].0 == c);
            }
            if m0.no_duplicates() {
                assert forall|c: (i64, i64)|
                    is_candidate(m0, MOVE_DIST as int, c) implies #[trigger] self.tt@.contains_key(
                    move_key(old(self).map, c),
                ) by {
                    assert(cands@.contains(c));
                    let i = choose|i: int| 0 <= i < cands@.len() && cands@[i] == c;
                }
            }
        }
        v
    }

    /// Searches the position with alpha-beta pruning up to `max_depth` moves:
    /// X raises `alpha`, O lowers `beta`, and a move that closes the window
    /// ends the search of the position.
    fn alpha_beta(&mut self, max_depth: u64, alpha: GameMeasure, beta: GameMeasure) -> (r: SearchResult)
        requires
            old(self).map.wf(),
            max_depth + 2 <= u64::MAX,
            old(self).map.depth() >= max_depth + 2 || moves_fit(
                old(self).map.moves(),
                max_depth + 2 - old(self).map.depth(),
            ),
        ensures
            old(self).tt@.dom().subset_of(final(self).tt@.dom()),
            final(self).map.wf(),
            final(self).map.moves() == old(self).map.moves(),
            final(self).map.depth() == old(self).map.depth(),
            is_terminal(old(self).map, max_depth) ==> {
                &&& r == (SearchResult {
                    score: old(self).map.measure(),
                    bound: SearchBound::Exact,
                    depth: old(self).map.depth(),
                })
                &&& final(self).map == old(self).map
                &&& final(self).tt@ == old(self).tt@
            },
            !is_terminal(old(self).map, max_depth) ==> {
                &&& r.depth == max_depth
                &&& r.bound == SearchBound::Lower ==> player_of(old(self).map.depth()) == Tile::X
                &&& r.bound == SearchBound::Upper ==> player_of(old(self).map.depth()) == Tile::O
                &&& r.bound == SearchBound::Lower ==> score_order(r.score, beta) >= 0 || score_order(alpha, beta) >= 0
                &&& r.bound == SearchBound::Upper ==> score_order(alpha, r.score) >= 0 || score_order(alpha, beta) >= 0
                &&& old(self).map.moves().no_duplicates() ==> forall|c: (i64, i64)|
                    is_candidate(old(self).map.moves(), MOVE_DIST as int, c) ==> #[trigger] final(self).tt@.contains_key(
                        move_key(old(self).map, c),
                    )
            },
            searched(*old(self), *final(self), max_depth, alpha, beta, r),
            is_terminal(old(self).map, max_depth) ==> final(self).stats == (Stats {
                alpha_beta: old(self).stats.alpha_beta.wrapping_add(1),
                ..old(self).stats
            }),
        decreases max_depth + 2 - old(self).map.depth(), 1int,
    {
        self.stats.alpha_beta = self.stats.alpha_beta.wrapping_add(1);
        let depth = self.map.get_depth();
        let now_heur = *self.map.get_heuristic();
        if depth >= max_depth + 2 || now_heur.won_by() != 0 || (depth >= max_depth && !now_heur.is_critical()) {
            proof {
                lemma_searched_terminal(*old(self), *self, max_depth, alpha, beta);
            }
            return SearchResult { score: now_heur, bound: SearchBound::Exact, depth };
        }
        let ghost m0 = self.map.moves();
        let x_moves = self.map.get_player() == Tile::X;
        proof {
            lemma_fit_weaken(m0, max_depth + 2 - depth, 1);
        }
        let ghost e_call = *self;
        let mut moves = self.score_moves();
        let ghost scored = moves@;
        let ghost tt1 = self.tt@;
        let ghost s0 = *self;
        proof {
            lemma_looked_up_all_start(e_call, *old(self), cells_of(scored), results_of(scored), s0);
        }
        rank_moves(&mut moves, x_moves);
        let ghost order = moves@;
        proof {
            assert forall|i: int| 0 <= i < moves@.len() implies cell_fits(
                (#[trigger] moves@[i]).0,
                max_depth + 1 - depth,
            ) by {
                let e = moves@[i];
                assert(moves@.contains(e));
                vstd::seq_lib::to_multiset_contains(moves@, e);
                vstd::seq_lib::to_multiset_contains(scored, e);
                let j = choose|j: int| 0 <= j < scored.len() && scored[j] == e;
                assert(is_candidate(m0, MOVE_DIST as int, scored[j].0));
                lemma_candidate_fits(m0, max_depth + 2 - depth, e.0);
            }
            reveal(moves_ordered);
            assert(moves_ordered(*old(self), scored, order, s0));
        }
        let mut lo = alpha;
        let mut hi = beta;
        let mut val = if x_moves {
            GameMeasure::new_min()
        } else {
            GameMeasure::new_max()
        };
        let ghost mut states: Seq<Engine> = seq![s0];
        let ghost mut scores: Seq<GameMeasure> = Seq::empty();
        proof {
            lemma_tried_start(*old(self), max_depth, alpha, beta, order, s0);
        }
        let mut k: usize = 0;
        while k < moves.len()
            invariant
                k <= moves@.len(),
                self.map.wf(),
                self.map.moves() == m0,
                self.map.depth() == depth,
                m0 == old(self).map.moves(),
                depth == old(self).map.depth(),
                !is_terminal(old(self).map, max_depth),
                old(self).tt@.dom().subset_of(self.tt@.dom()),
                depth < max_depth + 2,
                max_depth + 2 <= u64::MAX,
                moves_fit(m0, max_depth + 2 - depth),
                forall|i: int| 0 <= i < moves@.len() ==> cell_fits((#[trigger] moves@[i]).0, max_depth + 1 - depth),
                x_moves == (player_of(depth) == Tile::X),
                x_moves ==> hi == beta,
                !x_moves ==> lo == alpha,
                k == 0 ==> lo == alpha && hi == beta,
                k > 0 ==> score_order(lo, hi) < 0,
                tt1.dom().subset_of(self.tt@.dom()),
                m0.no_duplicates() ==> forall|c: (i64, i64)|
                    is_candidate(m0, MOVE_DIST as int, c) ==> #[trigger] tt1.contains_key(move_key(old(self).map, c)),
                moves@ == order,
                states.len() == k + 1,
                scores.len() == k,
                states[k as int] == *self,
                states[0] == s0,
                moves_ordered(*old(self), scored, order, s0),
                tried(*old(self), max_depth, alpha, beta, order, states, scores),
                (lo, hi) == window(x_moves, alpha, beta, scores),
                val == best_score(x_moves, scores),
            decreases moves@.len() - k,
        {
            let ((x, y), eval) = moves[k];
            let score = self.get_score(max_depth, &lo, &hi, x, y, eval);
            proof {
                lemma_tried_step(*old(self), max_depth, alpha, beta, order, states, scores, *self, score);
                let scores2 = scores.push(score);
                assert(scores2.drop_last() =~= scores);
                states = states.push(*self);
                scores = scores2;
            }
            if x_moves {
                val = measure_max(val, score);
                lo = measure_max(lo, score);
                if measure_ge(&lo, &hi) {
                    let r = SearchResult { score, bound: SearchBound::Lower, depth: max_depth };
                    proof {
                        lemma_searched_from_tried(*old(self), *self, max_depth, alpha, beta, r, scored, order, states, scores);
                    }
                    return r;
                }
            } else {
                val = measure_min(val, score);
                hi = measure_min(hi, score);
                if measure_ge(&lo, &hi) {
                    let r = SearchResult { score, bound: SearchBound::Upper, depth: max_depth };
                    proof {
                        lemma_searched_from_tried(*old(self), *self, max_depth, alpha, beta, r, scored, order, states, scores);
                    }
                    return r;
                }
            }
            k += 1;
        }
        let r = SearchResult { score: val, bound: SearchBound::Exact, depth: max_depth };
        proof {
            lemma_searched_from_tried(*old(self), *self, max_depth, alpha, beta, r, scored, order, states, scores);
        }
        r
    }

    /// Searches the position `max_depth` moves deep, filling the table; the
    /// counters start again from zero.
    pub fn run_search(&mut self, max_depth: u64)
        requires
            old(self).position().wf(),
            old(self).position().depth() + max_depth + 2 <= u64::MAX,
            moves_fit(old(self).position().moves(), max_depth + 2),
        ensures
            old(self).table().dom().subset_of(final(self).table().dom()),
            final(self).position().wf(),
            final(self).position().moves() == old(self).position().moves(),
            final(self).position().depth() == old(self).position().depth(),
            is_terminal(old(self).position(), (old(self).position().depth() + max_depth) as u64) ==> {
                &&& final(self).position() == old(self).position()
                &&& final(self).table() == old(self).table()
                &&& final(self).counters() == (Stats {
                    get_any_score: 0,
                    get_score: 0,
                    alpha_beta: 1,
                    tt_hits: 0,
                    tt_non_hits: 0,
                })
            },
            !is_terminal(old(self).position(), (old(self).position().depth() + max_depth) as u64)
                && old(self).position().moves().no_duplicates() ==> forall|c: (i64, i64)|
                is_candidate(old(self).position().moves(), MOVE_DIST as int, c)
                    ==> #[trigger] final(self).table().contains_key(move_key(old(self).position(), c)),
            exists|r: SearchResult|
                #[trigger] searched(
                    *old(self),
                    *final(self),
                    (old(self).position().depth() + max_depth) as u64,
                    lowest_measure(),
                    highest_measure(),
                    r,
                ),
    {
        let depth = self.map.get_depth();
        self.stats = Stats::default();
        let ghost e_call = *self;
        let r = self.alpha_beta(depth + max_depth, GameMeasure::new_min(), GameMeasure::new_max());
        proof {
            lemma_searched_start(e_call, *old(self), *self, (depth + max_depth) as u64, lowest_measure(), highest_measure(), r);
        }
    }

    /// The candidate moves, each with the result that looking it up finds, in
    /// the order in which the player to move ranks them.
    pub fn ranked_moves(&mut self) -> (v: Vec<((i64, i64), SearchResult)>)
        requires
            old(self).position().wf(),
            old(self).position().depth() < u64::MAX,
            moves_fit(old(self).position().moves(), 1),
        ensures
            old(self).table().dom().subset_of(final(self).table().dom()),
            final(self).position().wf(),
            final(self).position().moves() == old(self).position().moves(),
            final(self).position().depth() == old(self).position().depth(),
            old(self).position().moves().no_duplicates() ==> final(self).position().hash() == old(
                self,
            ).position().hash(),
            exists|scored: Seq<((i64, i64), SearchResult)>| #[trigger] ranked_of(*old(self), *final(self), scored, v@),
    {
        let x_moves = self.map.get_player() == Tile::X;
        let mut moves = self.score_moves();
        let ghost scored = moves@;
        rank_moves(&mut moves, x_moves);
        proof {
            assert(ranked_of(*old(self), *self, scored, moves@));
        }
        moves
    }

    /// The move to play: the candidate move whose result ranks first for the
    /// player to move.
    pub fn get_best_move(&mut self) -> (r: (i64, i64))
        requires
            old(self).position().wf(),
            old(self).position().moves().len() > 0,
            old(self).position().depth() < u64::MAX,
            moves_fit(old(self).position().moves(), 1),
        ensures
            old(self).table().dom().subset_of(final(self).table().dom()),
            is_candidate(old(self).position().moves(), MOVE_DIST as int, r),
            final(self).position().wf(),
            final(self).position().moves() == old(self).position().moves(),
            final(self).position().depth() == old(self).position().depth(),
            old(self).position().moves().no_duplicates() ==> final(self).position().hash() == old(
                self,
            ).position().hash(),
            exists|scored: Seq<((i64, i64), SearchResult)>, order: Seq<((i64, i64), SearchResult)>|
                #[trigger] best_of(*old(self), *final(self), scored, order, r),
    {
        let ghost m0 = self.map.moves();
        let moves = self.ranked_moves();
        let ghost scored = choose|scored: Seq<((i64, i64), SearchResult)>| ranked_of(*old(self), *self, scored, moves@);
        proof {
            let c = lemma_some_candidate(m0);
            let i = choose|i: int| 0 <= i < scored.len() && (#[trigger] scored[i]).0 == c;
            let e = moves@[0];
            assert(moves@.contains(e));
            vstd::seq_lib::to_multiset_contains(moves@, e);
            vstd::seq_lib::to_multiset_contains(scored, e);
            let j = choose|j: int| 0 <= j < scored.len() && scored[j] == e;
            assert(is_candidate(m0, MOVE_DIST as int, scored[j].0));
        }
        let r = moves[0].0;
        proof {
            assert(best_of(*old(self), *self, scored, moves@, r));
        }
        r
    }

    /// The winner of the position: positive for X, negative for O, 0 for none.
    pub fn won_by(&self) -> (r: i64)
        ensures
            r == self.position().measure().won(),
    {
        self.map.get_heuristic().won_by() as i64
    }

    /// Plays the move of the player to move at (x, y).
    pub fn place(&mut self, x: i64, y: i64)
        requires
            old(self).position().can_write(x, y),
            old(self).position().depth() < u64::MAX,
        ensures
            old(self).position().wf() ==> final(self).position().wf(),
            old(self).position().played(final(self).position(), x, y),
            final(self).table() == old(self).table(),
            final(self).counters() == old(self).counters(),
    {
        self.map.place(x, y);
    }

    /// Takes back the last move.
    pub fn undo(&mut self)
        requires
            old(self).position().wf(),
            old(self).position().moves().len() > 0,
            old(self).position().depth() > 0,
        ensures
            final(self).position().wf(),
            old(self).position().taken_back(final(self).position()),
            final(self).table() == old(self).table(),
            final(self).counters() == old(self).counters(),
    {
        proof {
            self.map.lemma_moves_in_reach(self.map.moves().len() - 1);
        }
        self.map.undo();
    }
}

/// Bound on the coordinates of the played cells.
pub const CELL_BOUND: i64 = 0x4000_0000_0000_0000;

proof fn lemma_coord_bounds(map: GameMap, s: Seq<(i64, i64)>)
    requires
        map.wf(),
        s.to_multiset() == map.moves().to_multiset(),
    ensures
        forall|i: int| 0 <= i < s.len() ==> -CELL_BOUND <= (#[trigger] s[i]).0 < CELL_BOUND && -CELL_BOUND <= s[i].1 < CELL_BOUND,
{
    assert forall|i: int| 0 <= i < s.len() implies -CELL_BOUND <= (#[trigger] s[i]).0 < CELL_BOUND && -CELL_BOUND <= s[i].1 < CELL_BOUND by {
        assert(s.contains(s[i]));
        vstd::seq_lib::to_multiset_contains(s, s[i]);
        vstd::seq_lib::to_multiset_contains(map.moves(), s[i]);
        let k = choose|k: int| 0 <= k < map.moves().len() && map.moves()[k] == s[i];
        map.lemma_moves_in_reach(k);
        crate::map::game_map::lemma_tile_bound_le();
    }
}

/// No cell of rows x .. s[start].0 - d lies near a played cell, where the
/// cells before `start` lie more than `d` rows below x.
proof fn lemma_no_candidates_before(s: Seq<(i64, i64)>, d: int, start: int, x: int)
    requires
        cells_sorted(s),
        0 <= start < s.len(),
        0 <= d,
        forall|j: int| 0 <= j < start ==> #[trigger] s[j].0 + d < x,
    ensures
        forall|c: (i64, i64)| x <= c.0 < s[start].0 - d ==> !near_any(s, c, d),
{
    assert forall|c: (i64, i64)| x <= c.0 < s[start].0 - d implies !near_any(s, c, d) by {
        if near_any(s, c, d) {
            let i = choose|i: int| 0 <= i < s.len() && near(c, #[trigger] s[i], d);
            if i < start {
                assert(s[i].0 + d < x);
            } else if i > start {
                assert(cell_le(s[start], s[i]));
            }
        }
    }
}

/// Whether measure `a` is at least measure `b`.
fn measure_ge(a: &GameMeasure, b: &GameMeasure) -> (r: bool)
    ensures
        r == (score_order(*a, *b) >= 0),
{
    match a.cmp(b) {
        Ordering::Less => false,
        _ => true,
    }
}

/// The greater of two measures; `b` where they tie.
fn measure_max(a: GameMeasure, b: GameMeasure) -> (r: GameMeasure)
    ensures
        r == if score_order(a, b) == 1 {
            a
        } else {
            b
        },
{
    match a.cmp(&b) {
        Ordering::Greater => a,
        _ => b,
    }
}

/// The smaller of two measures; `a` where they tie.
fn measure_min(a: GameMeasure, b: GameMeasure) -> (r: GameMeasure)
    ensures
        r == if score_order(a, b) == 1 {
            b
        } else {
            a
        },
{
    match a.cmp(&b) {
        Ordering::Greater => b,
        _ => a,
    }
}

/// A cell within distance 1 of the played cells lies one cell less inside
/// the reach than they do.
proof fn lemma_candidate_fits(s: Seq<(i64, i64)>, margin: int, c: (i64, i64))
    requires
        moves_fit(s, margin),
        near_any(s, c, 1),
    ensures
        cell_fits(c, margin - 1),
{
    let i = choose|i: int| 0 <= i < s.len() && near(c, #[trigger] s[i], 1);
    assert(cell_fits(s[i], margin));
}

/// A margin holds of every smaller margin.
proof fn lemma_fit_weaken(s: Seq<(i64, i64)>, margin: int, smaller: int)
    requires
        moves_fit(s, margin),
        smaller <= margin,
    ensures
        moves_fit(s, smaller),
{
    assert forall|i: int| 0 <= i < s.len() implies cell_fits(#[trigger] s[i], smaller) by {
        assert(cell_fits(s[i], margin));
    }
}

/// The greatest cell of a sequence that is not empty.
proof fn lemma_max_cell(s: Seq<(i64, i64)>) -> (m: (i64, i64))
    requires
        s.len() > 0,
    ensures
        s.contains(m),
        forall|i: int| 0 <= i < s.len() ==> cell_le(#[trigger] s[i], m),
    decreases s.len(),
{
    if s.len() == 1 {
        assert(s[0] == s[0]);
        s[0]
    } else {
        let t = s.drop_last();
        let m0 = lemma_max_cell(t);
        let l = s.last();
        let i0 = choose|i: int| 0 <= i < t.len() && t[i] == m0;
        assert(s[i0] == m0);
        assert forall|i: int| 0 <= i < s.len() - 1 implies #[trigger] s[i] == t[i] by {
        }
        if cell_le(m0, l) {
            assert(s[s.len() - 1] == l);
            l
        } else {
            m0
        }
    }
}

/// Where moves have been played, some cell is a candidate: the one next to
/// the greatest played cell.
proof fn lemma_some_candidate(s: Seq<(i64, i64)>) -> (c: (i64, i64))
    requires
        s.len() > 0,
        moves_fit(s, 1),
    ensures
        is_candidate(s, MOVE_DIST as int, c),
{
    let m = lemma_max_cell(s);
    let k = choose|k: int| 0 <= k < s.len() && s[k] == m;
    assert(cell_fits(s[k], 1));
    crate::map::game_map::lemma_tile_bound_le();
    let c = ((m.0 + 1) as i64, m.1);
    assert(near(c, s[k], 1));
    if s.contains(c) {
        let j = choose|j: int| 0 <= j < s.len() && s[j] == c;
        assert(cell_le(s[j], m));
    }
    c
}

} // verus!
