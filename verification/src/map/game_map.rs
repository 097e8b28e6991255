use vstd::prelude::*;
use crate::map::tile::Tile;
use crate::map::quad_root::{QuadRoot, tile_bound, after_write};
use crate::map::quad_node::{Level, kept_after_clean};
use crate::map::heurs::GameMeasure;
use crate::map::heurs::heuristic::Heuristic;
use crate::map::heurs::game_threats::{
    point_threats,
    winner_after,
    lemma_wrap16_add,
    wrap16,
    WIN_LEN,
    lemma_lone_stone,
    lemma_wrap16_range,
    line_h,
    line_v,
    line_d,
};

verus! {

/// A position's hash: the xor of the hashes of its stones.
pub type Hash = u64;

/// The SplitMix64 finaliser.
pub open spec fn splitmix64_spec(x: u64) -> u64 {
    let a = x.wrapping_add(0x9E3779B97F4A7C15);
    let b = (a ^ (a >> 30u64)).wrapping_mul(0xBF58476D1CE4E5B9);
    let c = (b ^ (b >> 27u64)).wrapping_mul(0x94D049BB133111EB);
    c ^ (c >> 31u64)
}

/// The seed that tells the stones apart in their hashes.
pub open spec fn tile_seed(t: Tile) -> u64 {
    match t {
        Tile::Empty => 0,
        Tile::X => 0xC85A0D3A7E3B7508,
        Tile::O => 0x3658570FED0B5A86,
    }
}

/// The hash of stone `t` at (x, y); an empty tile hashes to 0.
pub open spec fn tile_hash(x: i64, y: i64, t: Tile) -> u64 {
    if t == Tile::Empty {
        0
    } else {
        splitmix64_spec(((x as u64) ^ ((y as u64) << 32u64)) ^ tile_seed(t))
    }
}

/// The player to move after `step` moves: X while bit 1 of `step` is set.
pub open spec fn player_of(step: u64) -> Tile {
    if step & 2 != 0 {
        Tile::X
    } else {
        Tile::O
    }
}

/// How the measure changes when tile (x, y) of board `b0` becomes board `b1`
/// at `step`: the threats through (x, y) on `b0` are taken out, those on `b1`
/// put in, then differences and winner are recorded, all in `i16` arithmetic
/// that wraps around.
pub open spec fn measure_moved(
    m0: GameMeasure,
    m1: GameMeasure,
    b0: QuadRoot,
    b1: QuadRoot,
    x: int,
    y: int,
    step: u64,
) -> bool {
    &&& m1.xs().len() == WIN_LEN
    &&& m1.os().len() == WIN_LEN
    &&& m1.diffs().len() == WIN_LEN
    &&& forall|k: int|
        0 <= k < WIN_LEN ==> #[trigger] m1.xs()[k] == wrap16(m0.xs()[k] - point_threats(b0, x, y, Tile::X, k)
            + point_threats(b1, x, y, Tile::X, k))
    &&& forall|k: int|
        0 <= k < WIN_LEN ==> #[trigger] m1.os()[k] == wrap16(m0.os()[k] - point_threats(b0, x, y, Tile::O, k)
            + point_threats(b1, x, y, Tile::O, k))
    &&& forall|k: int| 0 <= k < WIN_LEN ==> #[trigger] m1.diffs()[k] == wrap16(m1.xs()[k] - m1.os()[k])
    &&& m1.won() == wrap16(winner_after(m1.xs(), m1.os(), step))
}

/// The differences and the winner of measure `m` follow from its counts, as
/// the last update at `step` records them.
pub open spec fn measure_settled(m: GameMeasure, step: u64) -> bool {
    &&& m.xs().len() == WIN_LEN
    &&& m.os().len() == WIN_LEN
    &&& m.diffs().len() == WIN_LEN
    &&& forall|k: int| 0 <= k < WIN_LEN ==> #[trigger] m.diffs()[k] == wrap16(m.xs()[k] - m.os()[k])
    &&& m.won() == wrap16(winner_after(m.xs(), m.os(), step))
}

/// Board `b1` is board `b0` with tile (x, y) written with `t`.
pub open spec fn board_written(b0: QuadRoot, b1: QuadRoot, x: int, y: int, t: Tile) -> bool {
    forall|x2: int, y2: int| #[trigger] b1.tile(x2, y2) == after_write(x, y, t, x2, y2, b0.tile(x2, y2))
}

/// A game position: the board, its measure, the moves played, its hash and
/// the number of moves.
pub struct GameMap {
    tree: QuadRoot,
    heuristic: GameMeasure,
    move_list: Vec<(i64, i64)>,
    hash: Hash,
    step: u64,
}

impl GameMap {
    pub closed spec fn board(self) -> QuadRoot {
        self.tree
    }

    pub closed spec fn measure(self) -> GameMeasure {
        self.heuristic
    }

    pub closed spec fn moves(self) -> Seq<(i64, i64)> {
        self.move_list@
    }

    pub closed spec fn hash(self) -> Hash {
        self.hash
    }

    pub closed spec fn depth(self) -> u64 {
        self.step
    }

    /// Every stone on the board stands on a cell of the move list, and every
    /// cell of the move list lies within the board's reach.
    pub closed spec fn wf(self) -> bool {
        &&& forall|x: int, y: int|
            #[trigger] self.tree.tile(x, y) != Tile::Empty ==> exists|i: int|
                0 <= i < self.move_list@.len() && self.move_list@[i].0 == x && self.move_list@[i].1 == y
        &&& forall|i: int|
            0 <= i < self.move_list@.len() ==> -tile_bound() <= #[trigger] self.move_list@[i].0 < tile_bound()
                && -tile_bound() <= self.move_list@[i].1 < tile_bound()
        &&& measure_settled(self.heuristic, self.step)
    }

    /// The stones on the board stand on cells of the move list.
    pub proof fn lemma_stones_are_moves(self, x: int, y: int)
        requires
            self.wf(),
            self.board().tile(x, y) != Tile::Empty,
        ensures
            exists|i: int| 0 <= i < self.moves().len() && self.moves()[i].0 == x && self.moves()[i].1 == y,
    {
        assert(self.tree.tile(x, y) != Tile::Empty);
        let i = choose|i: int|
            0 <= i < self.move_list@.len() && self.move_list@[i].0 == x && self.move_list@[i].1 == y;
        assert(self.moves()[i] == self.move_list@[i]);
    }

    /// The moves lie within the board's reach.
    pub proof fn lemma_moves_in_reach(self, i: int)
        requires
            self.wf(),
            0 <= i < self.moves().len(),
        ensures
            -tile_bound() <= self.moves()[i].0 < tile_bound(),
            -tile_bound() <= self.moves()[i].1 < tile_bound(),
    {
        assert(-tile_bound() <= self.move_list@[i].0 < tile_bound());
    }

    /// The tile (x, y) lies within the board's reach.
    pub open spec fn can_write(self, x: i64, y: i64) -> bool {
        &&& -tile_bound() <= x < tile_bound()
        &&& -tile_bound() <= y < tile_bound()
    }

    /// `after` is this position with the stone of the player to move played
    /// at (x, y): the move joins the list, the tile is written, and hash and
    /// measure follow the tile.
    pub open spec fn played(self, after: GameMap, x: i64, y: i64) -> bool {
        &&& after.moves() == self.moves().push((x, y))
        &&& after.depth() == self.depth() + 1
        &&& board_written(self.board(), after.board(), x as int, y as int, player_of(self.depth()))
        &&& after.hash() == self.hash() ^ tile_hash(x, y, self.board().tile(x as int, y as int)) ^ tile_hash(
            x,
            y,
            player_of(self.depth()),
        )
        &&& measure_moved(
            self.measure(),
            after.measure(),
            self.board(),
            after.board(),
            x as int,
            y as int,
            after.depth(),
        )
    }

    /// `after` is this position with its last move taken back: the move
    /// leaves the list, its tile is emptied, and hash and measure follow.
    pub open spec fn taken_back(self, after: GameMap) -> bool {
        let (x, y) = self.moves().last();
        &&& after.moves() == self.moves().drop_last()
        &&& after.depth() == self.depth() - 1
        &&& board_written(self.board(), after.board(), x as int, y as int, Tile::Empty)
        &&& after.hash() == self.hash() ^ tile_hash(x, y, self.board().tile(x as int, y as int))
        &&& measure_moved(
            self.measure(),
            after.measure(),
            self.board(),
            after.board(),
            x as int,
            y as int,
            after.depth(),
        )
    }

    /// The position after `start_step` moves with a single stone X at (0, 0).
    pub fn new(start_step: u64) -> (gm: GameMap)
        ensures
            gm.wf(),
            gm.moves() == seq![(0i64, 0i64)],
            gm.depth() == start_step,
            gm.hash() == tile_hash(0, 0, Tile::X),
            forall|x: int, y: int| #[trigger] gm.board().tile(x, y) == if x == 0 && y == 0 {
                Tile::X
            } else {
                Tile::Empty
            },
            gm.measure().xs() == seq![18i16, 0, 0, 0, 0, 0],
            gm.measure().os() == seq![0i16, 0, 0, 0, 0, 0],
            gm.measure().diffs() == seq![18i16, 0, 0, 0, 0, 0],
            gm.measure().won() == 0,
    {
        let tree = QuadRoot::new();
        let heuristic = GameMeasure::new();
        let mut gm = GameMap { tree, heuristic, move_list: Vec::new(), hash: 0, step: start_step };
        proof {
            lemma_tile_bound_positive();
        }
        proof {
            assert forall|x: int, y: int| #[trigger] gm.tree.tile(x, y) != Tile::Empty implies exists|i: int|
                0 <= i < gm.move_list@.len() && gm.move_list@[i].0 == x && gm.move_list@[i].1 == y by {
            }
            assert(gm.wf());
        }
        let ghost before = gm;
        gm.place_init(0, 0, Tile::X);
        proof {
            assert forall|k: int| 0 <= k < WIN_LEN implies #[trigger] gm.measure().xs()[k] == seq![
                18i16,
                0,
                0,
                0,
                0,
                0,
            ][k] && gm.measure().os()[k] == 0 by {
                lemma_lone_stone(before.board(), gm.board(), 0, 0, Tile::X, k);
                lemma_lone_stone(before.board(), gm.board(), 0, 0, Tile::O, k);
            }
            assert(gm.measure().xs() =~= seq![18i16, 0, 0, 0, 0, 0]);
            assert(gm.measure().os() =~= seq![0i16, 0, 0, 0, 0, 0]);
            assert(gm.measure().diffs() =~= seq![18i16, 0, 0, 0, 0, 0]);
            assert(gm.moves() =~= seq![(0i64, 0i64)]);
            assert(tile_hash(0, 0, Tile::Empty) == 0);
            assert(0u64 ^ 0u64 == 0u64) by (bit_vector);
            let h = tile_hash(0, 0, Tile::X);
            assert(0u64 ^ h == h) by (bit_vector);
        }
        gm
    }

    pub fn get_heuristic(&self) -> (r: &GameMeasure)
        ensures
            *r == self.measure(),
    {
        &self.heuristic
    }

    pub fn get_move_list(&self) -> (r: &Vec<(i64, i64)>)
        ensures
            r@ == self.moves(),
    {
        &self.move_list
    }

    pub fn get_depth(&self) -> (r: u64)
        ensures
            r == self.depth(),
    {
        self.step
    }

    pub fn get_player(&self) -> (r: Tile)
        ensures
            r == player_of(self.depth()),
    {
        if self.step & 2 != 0 {
            Tile::X
        } else {
            Tile::O
        }
    }

    /// The SplitMix64 finaliser of `x`.
    fn splitmix64(x: Hash) -> (r: Hash)
        ensures
            r == splitmix64_spec(x),
    {
        let mut x = x;
        x = x.wrapping_add(0x9E3779B97F4A7C15);
        x = (x ^ (x >> 30)).wrapping_mul(0xBF58476D1CE4E5B9);
        x = (x ^ (x >> 27)).wrapping_mul(0x94D049BB133111EB);
        x ^ (x >> 31)
    }

    fn get_tile_hash(x: i64, y: i64, tile: Tile) -> (r: Hash)
        ensures
            r == tile_hash(x, y, tile),
    {
        let tile_hash: Hash = match tile {
            Tile::Empty => return 0,
            Tile::X => 0xC85A0D3A7E3B7508,
            Tile::O => 0x3658570FED0B5A86,
        };
        Self::splitmix64(((x as u64) ^ ((y as u64) << 32)) ^ tile_hash)
    }

    pub fn get_hash(&self) -> (r: Hash)
        ensures
            r == self.hash(),
    {
        self.hash
    }

    /// The hash that the position would have with the player to move's stone
    /// added at (x, y).
    pub fn peek_hash(&self, x: i64, y: i64) -> (r: Hash)
        ensures
            r == self.hash() ^ tile_hash(x, y, player_of(self.depth())),
    {
        self.hash ^ Self::get_tile_hash(x, y, self.get_player())
    }

    pub fn get_tile(&self, x: i64, y: i64) -> (t: Tile)
        ensures
            t == self.board().tile(x as int, y as int),
    {
        self.tree.get_tile(x, y)
    }

    /// Writes `tile` at (x, y) and brings hash and measure up to date.
    #[verifier::spinoff_prover]
    #[verifier::rlimit(40)]
    fn update(&mut self, x: i64, y: i64, tile: Tile)
        requires
            old(self).can_write(x, y),
        ensures
            board_written(old(self).board(), final(self).board(), x as int, y as int, tile),
            final(self).hash() == old(self).hash() ^ tile_hash(x, y, old(self).board().tile(x as int, y as int))
                ^ tile_hash(x, y, tile),
            measure_moved(
                old(self).measure(),
                final(self).measure(),
                old(self).board(),
                final(self).board(),
                x as int,
                y as int,
                old(self).step,
            ),
            final(self).moves() == old(self).moves(),
            final(self).depth() == old(self).depth(),
    {
        let ghost m0 = self.heuristic;
        let ghost b0 = self.tree;
        proof {
            lemma_tile_bound_positive();
        }
        self.heuristic.update(&mut self.tree, x, y, -1);
        let ghost m1 = self.heuristic;
        let prev = self.tree.set_tile(x, y, tile);
        self.hash ^= Self::get_tile_hash(x, y, prev);
        self.hash ^= Self::get_tile_hash(x, y, tile);
        let ghost b1 = self.tree;
        self.heuristic.update(&mut self.tree, x, y, 1);
        let ghost m2 = self.heuristic;
        self.heuristic.update_done(self.step);
        proof {
            assert forall|k: int| 0 <= k < WIN_LEN implies {
                &&& #[trigger] m2.xs()[k] == wrap16(m0.xs()[k] - point_threats(b0, x as int, y as int, Tile::X, k)
                    + point_threats(b1, x as int, y as int, Tile::X, k))
                &&& m2.os()[k] == wrap16(m0.os()[k] - point_threats(b0, x as int, y as int, Tile::O, k)
                    + point_threats(b1, x as int, y as int, Tile::O, k))
            } by {
                lemma_wrap16_add(m0.xs()[k] - point_threats(b0, x as int, y as int, Tile::X, k), point_threats(b1, x as int, y as int, Tile::X, k));
                lemma_wrap16_add(m0.os()[k] - point_threats(b0, x as int, y as int, Tile::O, k), point_threats(b1, x as int, y as int, Tile::O, k));
            }
        }
    }

    /// Places a stone at (x, y) before the first move, leaving the number of
    /// moves unchanged.
    pub fn place_init(&mut self, x: i64, y: i64, tile: Tile)
        requires
            old(self).can_write(x, y),
        ensures
            old(self).wf() ==> final(self).wf(),
            final(self).moves() == old(self).moves().push((x, y)),
            final(self).depth() == old(self).depth(),
            board_written(old(self).board(), final(self).board(), x as int, y as int, tile),
            final(self).hash() == old(self).hash() ^ tile_hash(x, y, old(self).board().tile(x as int, y as int))
                ^ tile_hash(x, y, tile),
            measure_moved(
                old(self).measure(),
                final(self).measure(),
                old(self).board(),
                final(self).board(),
                x as int,
                y as int,
                old(self).depth(),
            ),
    {
        let ghost old_self = *self;
        self.move_list.push((x, y));
        self.update(x, y, tile);
        proof {
            if old_self.wf() {
                lemma_write_keeps_wf(old_self, *self, x, y, tile);
            }
        }
    }

    /// Plays the move of the player to move at (x, y).
    pub fn place(&mut self, x: i64, y: i64)
        requires
            old(self).can_write(x, y),
            old(self).depth() < u64::MAX,
        ensures
            old(self).wf() ==> final(self).wf(),
            old(self).played(*final(self), x, y),
    {
        let ghost old_self = *self;
        self.move_list.push((x, y));
        let player = self.get_player();
        self.step += 1;
        self.update(x, y, player);
        proof {
            if old_self.wf() {
                lemma_write_keeps_wf(old_self, *self, x, y, player);
            }
        }
    }

    /// Takes back the last move.
    pub fn undo(&mut self)
        requires
            old(self).moves().len() > 0,
            old(self).depth() > 0,
            old(self).can_write(old(self).moves().last().0, old(self).moves().last().1),
        ensures
            old(self).wf() ==> final(self).wf(),
            old(self).taken_back(*final(self)),
    {
        let ghost old_self = *self;
        let (x, y) = self.move_list.pop().unwrap();
        self.step -= 1;
        self.update(x, y, Tile::Empty);
        proof {
            if old_self.wf() {
                let n = old_self.move_list@.len() - 1;
                assert forall|x2: int, y2: int| #[trigger] self.tree.tile(x2, y2) != Tile::Empty implies exists|i: int|
                    0 <= i < self.move_list@.len() && self.move_list@[i].0 == x2 && self.move_list@[i].1 == y2 by {
                    assert(old_self.tree.tile(x2, y2) != Tile::Empty);
                    let i = choose|i: int| 0 <= i < old_self.move_list@.len() && old_self.move_list@[i].0 == x2 && old_self.move_list@[i].1 == y2;
                    assert(i != n);
                    assert(self.move_list@[i] == old_self.move_list@[i]);
                }
                assert forall|i: int| 0 <= i < self.move_list@.len() implies -tile_bound() <= #[trigger] self.move_list@[i].0 < tile_bound()
                    && -tile_bound() <= self.move_list@[i].1 < tile_bound() by {
                    assert(self.move_list@[i] == old_self.move_list@[i]);
                }
            }
            let h = old(self).hash() ^ tile_hash(x, y, old(self).board().tile(x as int, y as int));
            assert(h ^ 0u64 == h) by (bit_vector);
        }
    }

    /// The board.
    pub fn get_board(&self) -> (r: &QuadRoot)
        ensures
            *r == self.board(),
    {
        &self.tree
    }

    pub fn tree_level(&self) -> (r: Level)
        ensures
            r == self.board().level(),
    {
        self.tree.get_lvl()
    }

    /// Drops the empty chunks of the board.
    pub fn clean_tree(&mut self)
        ensures
            forall|x: int, y: int| #[trigger] final(self).board().tile(x, y) == old(self).board().tile(x, y),
            final(self).moves() == old(self).moves(),
            final(self).depth() == old(self).depth(),
            final(self).hash() == old(self).hash(),
            final(self).measure() == old(self).measure(),
            old(self).wf() ==> final(self).wf(),
            final(self).board().level() == old(self).board().level(),
            final(self).board().offsets() == old(self).board().offsets(),
            forall|cx: int, cy: int| #[trigger] final(self).board().chunk(cx, cy) == kept_after_clean(
                old(self).board().chunk(cx, cy),
            ),
    {
        let ghost old_self = *self;
        self.tree.clean();
        proof {
            if old_self.wf() {
                assert forall|x: int, y: int| #[trigger] self.tree.tile(x, y) != Tile::Empty implies exists|i: int|
                    0 <= i < self.move_list@.len() && self.move_list@[i].0 == x && self.move_list@[i].1 == y by {
                    assert(old_self.tree.tile(x, y) != Tile::Empty);
                    let i = choose|i: int|
                        0 <= i < old_self.move_list@.len() && old_self.move_list@[i].0 == x && old_self.move_list@[i].1 == y;
                    assert(self.move_list@[i] == old_self.move_list@[i]);
                }
            }
        }
    }
}

/// A write at (x, y), after (x, y) joined the move list, keeps the stones on
/// cells of the move list.
proof fn lemma_write_keeps_wf(before: GameMap, after: GameMap, x: i64, y: i64, t: Tile)
    requires
        before.wf(),
        after.move_list@ == before.move_list@.push((x, y)),
        board_written(before.tree, after.tree, x as int, y as int, t),
        -tile_bound() <= x < tile_bound(),
        -tile_bound() <= y < tile_bound(),
        measure_settled(after.heuristic, after.step),
    ensures
        after.wf(),
{
    let n = before.move_list@.len();
    assert forall|x2: int, y2: int| #[trigger] after.tree.tile(x2, y2) != Tile::Empty implies exists|i: int|
        0 <= i < after.move_list@.len() && after.move_list@[i].0 == x2 && after.move_list@[i].1 == y2 by {
        if x2 == x && y2 == y {
            assert(after.move_list@[n as int] == (x, y));
        } else {
            assert(before.tree.tile(x2, y2) != Tile::Empty);
            let i = choose|i: int| 0 <= i < before.move_list@.len() && before.move_list@[i].0 == x2 && before.move_list@[i].1 == y2;
            assert(after.move_list@[i] == before.move_list@[i]);
        }
    }
    assert forall|i: int| 0 <= i < after.move_list@.len() implies -tile_bound() <= #[trigger] after.move_list@[i].0 < tile_bound()
        && -tile_bound() <= after.move_list@[i].1 < tile_bound() by {
        if i < n {
            assert(after.move_list@[i] == before.move_list@[i]);
        }
    }
}

/// The board's reach lies within 2^62 of the origin.
pub proof fn lemma_tile_bound_le()
    ensures
        tile_bound() <= 0x4000_0000_0000_0000,
{
    lemma_tile_bound_positive();
}

proof fn lemma_tile_bound_positive()
    ensures
        tile_bound() >= 0x4000_0000,
        tile_bound() <= 0x4000_0000_0000_0000,
{
    vstd::arithmetic::power2::lemma2_to64();
    vstd::arithmetic::power2::lemma2_to64_rest();
    assert(usize::BITS == 32 || usize::BITS == 64);
    if usize::BITS == 64 {
        vstd::arithmetic::power2::lemma_pow2_strictly_increases(30, 62);
    }
}

/// A write at (x, y) empties no stone of `b` but the one at (x, y): the
/// tiles that it clears in the storage word of (x, y) are empty already.
pub open spec fn write_keeps_stones(b: QuadRoot, x: int, y: int) -> bool {
    forall|a: int, c: int|
        !(a == x && c == y) ==> #[trigger] after_write(x, y, Tile::Empty, a, c, b.tile(a, c)) == b.tile(a, c)
}

/// Boards with the same tiles count the same threats.
proof fn lemma_threats_same_tiles(b0: QuadRoot, b1: QuadRoot, x: int, y: int, t: Tile, k: int)
    requires
        forall|a: int, c: int| #[trigger] b1.tile(a, c) == b0.tile(a, c),
    ensures
        point_threats(b1, x, y, t, k) == point_threats(b0, x, y, t, k),
{
    assert(line_h(b1, x, y) =~= line_h(b0, x, y));
    assert(line_v(b1, x, y) =~= line_v(b0, x, y));
    assert(line_d(b1, x, y) =~= line_d(b0, x, y));
}

/// Playing at an empty tile and taking the move back gives back the moves,
/// the number of moves and the hash, and leaves the tile empty; where the
/// write empties no other stone, every tile and the measure come back too.
pub proof fn lemma_place_undo(m0: GameMap, m1: GameMap, m2: GameMap, x: i64, y: i64)
    requires
        m0.played(m1, x, y),
        m1.taken_back(m2),
        m0.board().tile(x as int, y as int) == Tile::Empty,
    ensures
        m2.moves() == m0.moves(),
        m2.depth() == m0.depth(),
        m2.hash() == m0.hash(),
        m2.board().tile(x as int, y as int) == Tile::Empty,
        m0.wf() && write_keeps_stones(m0.board(), x as int, y as int) ==> {
            &&& forall|a: int, c: int| #[trigger] m2.board().tile(a, c) == m0.board().tile(a, c)
            &&& m2.measure() == m0.measure()
        },
{
    if m0.wf() && write_keeps_stones(m0.board(), x as int, y as int) {
        assert forall|a: int, c: int| #[trigger] m2.board().tile(a, c) == m0.board().tile(a, c) by {
            assert(m1.board().tile(a, c) == after_write(x as int, y as int, player_of(m0.depth()), a, c, m0.board().tile(a, c)));
            assert(m2.board().tile(a, c) == after_write(x as int, y as int, Tile::Empty, a, c, m1.board().tile(a, c)));
            if !(a == x && c == y) {
                assert(after_write(x as int, y as int, Tile::Empty, a, c, m0.board().tile(a, c)) == m0.board().tile(a, c));
            }
        }
        let e0 = m0.measure();
        let e2 = m2.measure();
        assert(m1.moves().last() == (x, y));
        assert forall|k: int|
            #![trigger e2.xs()[k]]
            #![trigger e2.os()[k]]
            0 <= k < WIN_LEN implies e2.xs()[k] == e0.xs()[k] && e2.os()[k] == e0.os()[k] by {
            lemma_threats_same_tiles(m0.board(), m2.board(), x as int, y as int, Tile::X, k);
            lemma_threats_same_tiles(m0.board(), m2.board(), x as int, y as int, Tile::O, k);
            let px = point_threats(m0.board(), x as int, y as int, Tile::X, k);
            let qx = point_threats(m1.board(), x as int, y as int, Tile::X, k);
            let po = point_threats(m0.board(), x as int, y as int, Tile::O, k);
            let qo = point_threats(m1.board(), x as int, y as int, Tile::O, k);
            lemma_wrap16_add(e0.xs()[k] - px + qx, px - qx);
            lemma_wrap16_add(e0.os()[k] - po + qo, po - qo);
            lemma_wrap16_range(e0.xs()[k] as int);
            lemma_wrap16_range(e0.os()[k] as int);
            assert(e0.xs()[k] - px + qx + (px - qx) == e0.xs()[k]);
            assert(e0.os()[k] - po + qo + (po - qo) == e0.os()[k]);
        }
        assert(e2.xs() =~= e0.xs());
        assert(e2.os() =~= e0.os());
        assert(e2.diffs() =~= e0.diffs());
        GameMeasure::lemma_same_views(e2, e0);
    }

    assert(m1.moves().last() == (x, y));
    assert(m1.moves().drop_last() =~= m0.moves());
    let p = player_of(m0.depth());
    assert(m1.board().tile(x as int, y as int) == after_write(x as int, y as int, p, x as int, y as int, m0.board().tile(x as int, y as int)));
    assert(tile_hash(x, y, Tile::Empty) == 0);
    let h = m0.hash();
    let a = tile_hash(x, y, p);
    assert((h ^ 0u64 ^ a) ^ a == h) by (bit_vector);
    assert(m2.board().tile(x as int, y as int) == after_write(x as int, y as int, Tile::Empty, x as int, y as int, m1.board().tile(x as int, y as int)));
}

/// Two positions with the same moves, depth, measure and tiles are alike:
/// one is well formed where the other is.
pub proof fn lemma_wf_alike(m0: GameMap, m1: GameMap)
    requires
        m0.wf(),
        m1.moves() == m0.moves(),
        m1.depth() == m0.depth(),
        m1.measure() == m0.measure(),
        forall|a: int, c: int| #[trigger] m1.board().tile(a, c) == m0.board().tile(a, c),
    ensures
        m1.wf(),
{
    assert forall|a: int, c: int| #[trigger] m1.tree.tile(a, c) != Tile::Empty implies exists|i: int|
        0 <= i < m1.move_list@.len() && m1.move_list@[i].0 == a && m1.move_list@[i].1 == c by {
        assert(m1.board().tile(a, c) == m0.board().tile(a, c));
        let i = choose|i: int|
            0 <= i < m0.move_list@.len() && m0.move_list@[i].0 == a && m0.move_list@[i].1 == c;
        assert(m1.move_list@[i] == m0.move_list@[i]);
    }
}

/// A move played from a position is played alike from a position with the
/// same moves, depth, hash, measure and tiles.
pub proof fn lemma_played_alike(m0: GameMap, m1: GameMap, after: GameMap, x: i64, y: i64)
    requires
        m1.played(after, x, y),
        m1.moves() == m0.moves(),
        m1.depth() == m0.depth(),
        m1.hash() == m0.hash(),
        m1.measure() == m0.measure(),
        forall|a: int, c: int| #[trigger] m1.board().tile(a, c) == m0.board().tile(a, c),
    ensures
        m0.played(after, x, y),
{
    assert forall|a: int, c: int| #[trigger] after.board().tile(a, c) == after_write(
        x as int,
        y as int,
        player_of(m0.depth()),
        a,
        c,
        m0.board().tile(a, c),
    ) by {
        assert(m1.board().tile(a, c) == m0.board().tile(a, c));
    }
    assert forall|k: int| 0 <= k < WIN_LEN implies #[trigger] after.measure().xs()[k] == wrap16(
        m0.measure().xs()[k] - point_threats(m0.board(), x as int, y as int, Tile::X, k) + point_threats(
            after.board(),
            x as int,
            y as int,
            Tile::X,
            k,
        ),
    ) by {
        lemma_threats_same_tiles(m0.board(), m1.board(), x as int, y as int, Tile::X, k);
    }
    assert forall|k: int| 0 <= k < WIN_LEN implies #[trigger] after.measure().os()[k] == wrap16(
        m0.measure().os()[k] - point_threats(m0.board(), x as int, y as int, Tile::O, k) + point_threats(
            after.board(),
            x as int,
            y as int,
            Tile::O,
            k,
        ),
    ) by {
        lemma_threats_same_tiles(m0.board(), m1.board(), x as int, y as int, Tile::O, k);
    }
}

/// Where the tile is empty, `peek_hash` gives the hash of the position after
/// the move there.
pub proof fn lemma_peek_is_played_hash(m0: GameMap, m1: GameMap, x: i64, y: i64)
    requires
        m0.played(m1, x, y),
        m0.board().tile(x as int, y as int) == Tile::Empty,
    ensures
        m1.hash() == m0.hash() ^ tile_hash(x, y, player_of(m0.depth())),
{
    assert(tile_hash(x, y, Tile::Empty) == 0);
    let h = m0.hash();
    let a = tile_hash(x, y, player_of(m0.depth()));
    assert(h ^ 0u64 ^ a == h ^ a) by (bit_vector);
}

} // verus!
