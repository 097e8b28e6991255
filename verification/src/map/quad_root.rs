use vstd::prelude::*;
use vstd::arithmetic::power2::{pow2, lemma_pow2_pos, lemma_pow2_unfold, lemma_pow2_strictly_increases, lemma2_to64};
use vstd::arithmetic::div_mod::{lemma_fundamental_div_mod, lemma_fundamental_div_mod_converse, lemma_mod_bound};
use vstd::bits::{lemma_usize_shl_is_mul, lemma_usize_pow2_no_overflow};
use crate::map::chunk::{Chunk, CHUNK_SIZE, tile_index, cleared_by_write};
use crate::map::params::{CHUNK_LOG_SIZE, NODE_LOG_SIZE};
use crate::map::quad_node::{QuadNode, QuadChd, Level, NODE_SIZE, node_span, child_span, kept_after_clean};
use crate::map::tile::Tile;

verus! {

/// Bound on the absolute value of the chunk coordinates that a write may reach.
pub open spec fn chunk_bound() -> int {
    pow2((usize::BITS - 5) as nat) as int
}

/// Bound on the absolute value of the tile coordinates that a write may reach:
/// writes take coordinates in [-tile_bound(), tile_bound()).
pub open spec fn tile_bound() -> int {
    pow2((usize::BITS - 2) as nat) as int
}

/// The chunk coordinate of tile coordinate `x`.
pub open spec fn chunk_coord(x: int) -> int {
    x / (CHUNK_SIZE as int)
}

/// The coordinate of tile coordinate `x` inside its chunk.
pub open spec fn local_coord(x: int) -> int {
    x % (CHUNK_SIZE as int)
}

/// What tile (x2, y2) holds after tile (x, y) was written with `t`, where it
/// held `before`: the written tile gets `t`, the tiles that the write clears
/// get `Empty`, the others keep their tile.
pub open spec fn after_write(x: int, y: int, t: Tile, x2: int, y2: int, before: Tile) -> Tile {
    if x2 == x && y2 == y {
        t
    } else if chunk_coord(x2) == chunk_coord(x) && chunk_coord(y2) == chunk_coord(y)
        && cleared_by_write(
        tile_index(local_coord(x), local_coord(y)),
        tile_index(local_coord(x2), local_coord(y2)),
    ) {
        Tile::Empty
    } else {
        before
    }
}

/// An offset of the board's origin inside a tree of level `l`, as the growth of
/// the tree keeps it.
pub open spec fn off_ok(off: int, l: nat) -> bool {
    0 <= off < pow2(l) && off <= chunk_bound() + pow2((l - 1) as nat)
}

/// The board: a quad tree of chunks that grows as tiles are written farther
/// from the origin. Tile (x, y) lies in the chunk at chunk coordinates
/// (x / CHUNK_SIZE + off_x, y / CHUNK_SIZE + off_y) of the tree.
pub struct QuadRoot {
    off_x: usize,
    off_y: usize,
    lvl: Level,
    quad_tree: QuadNode,
}

proof fn lemma_coords(x: i64)
    by (bit_vector)
    ensures
        x >> 3u64 == (x / 8) as i64,
        x & 7 == (x % 8) as i64,
{
}

/// Powers of two at the levels where the tree's growth stops.
pub proof fn lemma_level_powers(l: nat)
    requires
        1 <= l <= usize::BITS - 2,
    ensures
        pow2(l) == 2 * pow2((l - 1) as nat),
        pow2((l + 1) as nat) == 2 * pow2(l),
        pow2(l) > 0,
        chunk_bound() > 0,
        tile_bound() == 8 * chunk_bound(),
        l == usize::BITS - 2 ==> pow2(l) == 8 * chunk_bound(),
        l == usize::BITS - 3 ==> pow2(l) == 4 * chunk_bound(),
        l >= usize::BITS - 4 ==> pow2(l) >= 2 * chunk_bound(),
        l >= usize::BITS - 3 ==> pow2(l) >= 4 * chunk_bound(),
        pow2(l) <= tile_bound(),
        tile_bound() <= 0x4000_0000_0000_0000,
        tile_bound() < usize::MAX,
{
    let b = usize::BITS as nat;
    assert(b == 32 || b == 64);
    lemma_pow2_unfold(l);
    lemma_pow2_unfold(l + 1);
    lemma_pow2_pos(l);
    lemma_pow2_pos((b - 5) as nat);
    lemma_pow2_unfold((b - 4) as nat);
    lemma_pow2_unfold((b - 3) as nat);
    lemma_pow2_unfold((b - 2) as nat);
    if l >= b - 4 && l > b - 4 {
        lemma_pow2_strictly_increases((b - 4) as nat, l);
    }
    if l >= b - 3 && l > b - 3 {
        lemma_pow2_strictly_increases((b - 3) as nat, l);
    }
    if l < b - 2 {
        lemma_pow2_strictly_increases(l, (b - 2) as nat);
    }
    lemma2_to64();
    vstd::arithmetic::power2::lemma2_to64_rest();
    lemma_usize_pow2_no_overflow((b - 2) as nat);
}

/// Placing a tree of level `l` as child (wx, wy) of a new root of level `l + 1`
/// moves each chunk by `wx * pow2(l)`, `wy * pow2(l)`.
proof fn lemma_grow(old: QuadNode, top: QuadNode, l: nat, wx: int, wy: int)
    requires
        1 <= l < usize::BITS,
        0 <= wx < 2,
        0 <= wy < 2,
        old.wf(l),
        top.chd[wx][wy] == QuadChd::Node(Box::new(old)),
        forall|i: int, j: int| 0 <= i < 2 && 0 <= j < 2 && !(i == wx && j == wy) ==> top.chd[i][j] is Empty,
    ensures
        top.wf(l + 1),
        forall|cx: int, cy: int|
            #[trigger] top.chunk_at(l + 1, cx + wx * pow2(l), cy + wy * pow2(l)) == old.chunk_at(l, cx, cy),
{
    let s = pow2(l) as int;
    lemma_pow2_pos(l);
    assert(child_span(l + 1) == s);
    assert forall|cx: int, cy: int|
        #[trigger] top.chunk_at(l + 1, cx + wx * pow2(l), cy + wy * pow2(l)) == old.chunk_at(l, cx, cy) by {
        let a = cx + wx * s;
        let b = cy + wy * s;
        if 0 <= cx < s && 0 <= cy < s {
            lemma_fundamental_div_mod_converse(a, s, wx, cx);
            lemma_fundamental_div_mod_converse(b, s, wy, cy);
        } else {
            old.lemma_outside_no_chunk(l, cx, cy);
            if 0 <= a && 0 <= b {
                lemma_fundamental_div_mod(a, s);
                lemma_fundamental_div_mod(b, s);
                lemma_mod_bound(a, s);
                lemma_mod_bound(b, s);
                let i = a / s;
                let j = b / s;
                if 0 <= i < 2 && 0 <= j < 2 && i == wx && j == wy {
                    assert(false) by (nonlinear_arith)
                        requires
                            a == s * i + a % s,
                            b == s * j + b % s,
                            0 <= a % s < s,
                            0 <= b % s < s,
                            a == cx + wx * s,
                            b == cy + wy * s,
                            i == wx,
                            j == wy,
                            !(0 <= cx < s && 0 <= cy < s),
                    ;
                }
            }
        }
    }
}

/// Tile coordinates split into a chunk coordinate and a coordinate inside the chunk.
proof fn lemma_local(x: int)
    ensures
        0 <= local_coord(x) < CHUNK_SIZE,
        x == chunk_coord(x) * CHUNK_SIZE + local_coord(x),
        0 <= tile_index(local_coord(x), 0) < 64,
{
    lemma_fundamental_div_mod(x, 8);
    lemma_mod_bound(x, 8);
}

impl QuadRoot {
    #[verifier::type_invariant]
    spec fn inv(self) -> bool {
        &&& 1 <= self.lvl <= usize::BITS - 2
        &&& self.quad_tree.wf(self.lvl as nat)
        &&& off_ok(self.off_x as int, self.lvl as nat)
        &&& off_ok(self.off_y as int, self.lvl as nat)
        &&& self.lvl >= usize::BITS - 3 ==> (self.off_x > chunk_bound() || self.off_y > chunk_bound())
        &&& self.lvl == usize::BITS - 2 ==> (self.off_x > chunk_bound() && self.off_y > chunk_bound())
    }

    /// The tile at (x, y) of the board.
    pub closed spec fn tile(self, x: int, y: int) -> Tile {
        match self.quad_tree.chunk_at(
            self.lvl as nat,
            chunk_coord(x) + self.off_x,
            chunk_coord(y) + self.off_y,
        ) {
            Some(c) => c.tile(local_coord(x), local_coord(y)),
            None => Tile::Empty,
        }
    }

    /// The level of the tree.
    pub closed spec fn level(self) -> nat {
        self.lvl as nat
    }

    pub fn new() -> (r: QuadRoot)
        ensures
            forall|x: int, y: int| #[trigger] r.tile(x, y) == Tile::Empty,
            r.level() == 1,
    {
        let t = QuadNode::new();
        proof {
            lemma_level_powers(1);
            assert(t.wf(1));
        }
        let r = QuadRoot { off_x: 1, off_y: 1, lvl: 1, quad_tree: t };
        proof {
            assert forall|x: int, y: int| #[trigger] r.tile(x, y) == Tile::Empty by {
                t.lemma_no_children_no_chunks(1, chunk_coord(x) + 1, chunk_coord(y) + 1);
            }
        }
        r
    }

    pub fn get_tile(&self, x: i64, y: i64) -> (t: Tile)
        ensures
            t == self.tile(x as int, y as int),
    {
        proof {
            use_type_invariant(self);
            lemma_level_powers(self.lvl as nat);
            lemma_coords(x);
            lemma_coords(y);
        }
        let chk_x = (x >> CHUNK_LOG_SIZE) + self.off_x as i64;
        let chk_y = (y >> CHUNK_LOG_SIZE) + self.off_y as i64;
        let max_pos: i64 = (1usize << (self.lvl * NODE_LOG_SIZE)) as i64;
        proof {
            lemma_usize_pow2_no_overflow(self.lvl as nat);
            lemma_usize_shl_is_mul(1, self.lvl);
        }
        if 0 > chk_x || chk_x >= max_pos || 0 > chk_y || chk_y >= max_pos {
            proof {
                self.quad_tree.lemma_outside_no_chunk(self.lvl as nat, chk_x as int, chk_y as int);
            }
            return Tile::Empty;
        }
        let chk_x = chk_x as usize;
        let chk_y = chk_y as usize;
        let loc_x = (x & (CHUNK_SIZE - 1) as i64) as usize;
        let loc_y = (y & (CHUNK_SIZE - 1) as i64) as usize;
        match self.quad_tree.try_get_chunk(chk_x, chk_y, self.lvl) {
            None => Tile::Empty,
            Some(chunk) => chunk.get_tile(loc_x, loc_y),
        }
    }

    /// Writes `tile` at (x, y), growing the tree where (x, y) lies outside it,
    /// and gives back the tile that (x, y) held. An `Empty` write where no
    /// chunk holds (x, y) stores nothing.
    pub fn set_tile(&mut self, x: i64, y: i64, tile: Tile) -> (prev: Tile)
        requires
            -tile_bound() <= x < tile_bound(),
            -tile_bound() <= y < tile_bound(),
        ensures
            prev == old(self).tile(x as int, y as int),
            forall|x2: int, y2: int|
                #[trigger] final(self).tile(x2, y2) == after_write(
                    x as int,
                    y as int,
                    tile,
                    x2,
                    y2,
                    old(self).tile(x2, y2),
                ),
    {
        proof {
            use_type_invariant(&*self);
            lemma_level_powers(self.lvl as nat);
            lemma_coords(x);
            lemma_coords(y);
        }
        let ghost t0 = self.quad_tree;
        let ghost l0 = self.lvl as nat;
        let ghost ox0 = self.off_x as int;
        let ghost oy0 = self.off_y as int;
        let ghost tx = chunk_coord(x as int);
        let ghost ty = chunk_coord(y as int);
        let mut chk_x = (x >> CHUNK_LOG_SIZE) + self.off_x as i64;
        let mut chk_y = (y >> CHUNK_LOG_SIZE) + self.off_y as i64;
        let mut tree = QuadNode::new();
        std::mem::swap(&mut tree, &mut self.quad_tree);
        let mut lvl = self.lvl;
        let mut off_x = self.off_x;
        let mut off_y = self.off_y;
        loop
            invariant
                1 <= lvl <= usize::BITS - 2,
                tree.wf(lvl as nat),
                off_ok(off_x as int, lvl as nat),
                off_ok(off_y as int, lvl as nat),
                lvl >= usize::BITS - 3 ==> (off_x > chunk_bound() || off_y > chunk_bound()),
                lvl == usize::BITS - 2 ==> (off_x > chunk_bound() && off_y > chunk_bound()),
                -chunk_bound() <= tx < chunk_bound(),
                -chunk_bound() <= ty < chunk_bound(),
                chk_x == tx + off_x,
                chk_y == ty + off_y,
                forall|cx: int, cy: int|
                    #[trigger] tree.chunk_at(lvl as nat, cx + off_x, cy + off_y) == t0.chunk_at(
                        l0,
                        cx + ox0,
                        cy + oy0,
                    ),
            ensures
                1 <= lvl <= usize::BITS - 2,
                tree.wf(lvl as nat),
                off_ok(off_x as int, lvl as nat),
                off_ok(off_y as int, lvl as nat),
                lvl >= usize::BITS - 3 ==> (off_x > chunk_bound() || off_y > chunk_bound()),
                lvl == usize::BITS - 2 ==> (off_x > chunk_bound() && off_y > chunk_bound()),
                chk_x == tx + off_x,
                chk_y == ty + off_y,
                0 <= chk_x < pow2(lvl as nat),
                0 <= chk_y < pow2(lvl as nat),
                forall|cx: int, cy: int|
                    #[trigger] tree.chunk_at(lvl as nat, cx + off_x, cy + off_y) == t0.chunk_at(
                        l0,
                        cx + ox0,
                        cy + oy0,
                    ),
            decreases usize::BITS - 2 - lvl,
        {
            proof {
                lemma_level_powers(lvl as nat);
                lemma_usize_pow2_no_overflow(lvl as nat);
                lemma_usize_shl_is_mul(1, lvl);
            }
            let max_pos: usize = 1usize << (lvl * NODE_LOG_SIZE);
            if 0 <= chk_x && chk_x < max_pos as i64 && 0 <= chk_y && chk_y < max_pos as i64 {
                break ;
            }
            proof {
                if lvl == usize::BITS - 2 {
                    assert(pow2(lvl as nat) == 8 * chunk_bound());
                    assert(pow2((lvl - 1) as nat) == 4 * chunk_bound());
                    assert(false);
                }
                assert(lvl < usize::BITS - 2);
                lemma_level_powers((lvl + 1) as nat);
            }
            let wrap_x = if chk_x < 0 {
                NODE_SIZE - 1
            } else {
                0
            };
            let wrap_y = if chk_y < 0 {
                NODE_SIZE - 1
            } else {
                0
            };
            let mut old_tree = QuadNode::new();
            std::mem::swap(&mut old_tree, &mut tree);
            let ghost old_tree_g = old_tree;
            tree.chd[wrap_x][wrap_y] = QuadChd::Node(Box::new(old_tree));
            proof {
                lemma_grow(old_tree_g, tree, lvl as nat, wrap_x as int, wrap_y as int);
            }
            let shift_x = max_pos * wrap_x;
            let shift_y = max_pos * wrap_y;
            proof {
                assert(shift_x == wrap_x * pow2(lvl as nat)) by (nonlinear_arith)
                    requires
                        shift_x == max_pos * wrap_x,
                        max_pos == pow2(lvl as nat),
                ;
                assert(shift_y == wrap_y * pow2(lvl as nat)) by (nonlinear_arith)
                    requires
                        shift_y == max_pos * wrap_y,
                        max_pos == pow2(lvl as nat),
                ;
                assert(wrap_x == 0 || wrap_x == 1);
                assert(shift_x == 0 || shift_x == pow2(lvl as nat));
                assert(shift_y == 0 || shift_y == pow2(lvl as nat));
                assert forall|cx: int, cy: int|
                    #[trigger] tree.chunk_at((lvl + 1) as nat, cx + (off_x + shift_x), cy + (off_y + shift_y))
                        == t0.chunk_at(l0, cx + ox0, cy + oy0) by {
                    assert(tree.chunk_at((lvl + 1) as nat, (cx + off_x) + wrap_x * pow2(lvl as nat), (cy + off_y) + wrap_y * pow2(lvl as nat))
                        == old_tree_g.chunk_at(lvl as nat, cx + off_x, cy + off_y));
                }
            }
            off_x = off_x + shift_x;
            off_y = off_y + shift_y;
            chk_x = chk_x + shift_x as i64;
            chk_y = chk_y + shift_y as i64;
            lvl = lvl + 1;
        }
        let ghost mid = QuadRoot { off_x, off_y, lvl, quad_tree: tree };
        let ghost l1 = lvl as nat;
        proof {
            lemma_level_powers(lvl as nat);
            assert forall|x2: int, y2: int| #[trigger] mid.tile(x2, y2) == old(self).tile(x2, y2) by {
                assert(tree.chunk_at(l1, chunk_coord(x2) + off_x, chunk_coord(y2) + off_y) == t0.chunk_at(
                    l0,
                    chunk_coord(x2) + ox0,
                    chunk_coord(y2) + oy0,
                ));
            }
        }
        let cx = chk_x as usize;
        let cy = chk_y as usize;
        let loc_x = (x & (CHUNK_SIZE - 1) as i64) as usize;
        let loc_y = (y & (CHUNK_SIZE - 1) as i64) as usize;
        let prev = match tile {
            Tile::Empty => match tree.try_get_chunk_mut(cx, cy, lvl) {
                Some(chunk) => {
                    let prev = chunk.get_tile(loc_x, loc_y);
                    chunk.set_tile(loc_x, loc_y, tile);
                    prev
                },
                None => Tile::Empty,
            },
            _ => {
                let chunk = tree.get_chunk_mut(cx, cy, lvl);
                let prev = chunk.get_tile(loc_x, loc_y);
                chunk.set_tile(loc_x, loc_y, tile);
                prev
            },
        };
        *self = QuadRoot { off_x, off_y, lvl, quad_tree: tree };
        proof {
            assert forall|x2: int, y2: int|
                #[trigger] self.tile(x2, y2) == after_write(
                    x as int,
                    y as int,
                    tile,
                    x2,
                    y2,
                    old(self).tile(x2, y2),
                ) by {
                assert(mid.tile(x2, y2) == old(self).tile(x2, y2));
                if chunk_coord(x2) == chunk_coord(x as int) && chunk_coord(y2) == chunk_coord(y as int) {
                    lemma_local(x2);
                    lemma_local(y2);
                    lemma_local(x as int);
                    lemma_local(y as int);
                }
            }
        }
        prev
    }

    /// The chunk stored at chunk coordinates (cx, cy) of the board, where one is.
    pub closed spec fn chunk(self, cx: int, cy: int) -> Option<Chunk> {
        self.quad_tree.chunk_at(self.lvl as nat, cx + self.off_x, cy + self.off_y)
    }

    /// Drops the empty chunks, and the nodes left without children, from the tree.
    pub fn clean(&mut self)
        ensures
            forall|x: int, y: int| #[trigger] final(self).tile(x, y) == old(self).tile(x, y),
            final(self).level() == old(self).level(),
            final(self).offsets() == old(self).offsets(),
            forall|cx: int, cy: int| #[trigger] final(self).chunk(cx, cy) == kept_after_clean(old(self).chunk(cx, cy)),
    {
        proof {
            use_type_invariant(&*self);
        }
        let ghost t0 = self.quad_tree;
        let mut tree = QuadNode::new();
        std::mem::swap(&mut tree, &mut self.quad_tree);
        tree.clean();
        self.quad_tree = tree;
        proof {
            assert(t0.wf(self.lvl as nat));
            assert forall|cx: int, cy: int| #[trigger] self.chunk(cx, cy) == kept_after_clean(old(self).chunk(cx, cy)) by {
            }
            assert forall|x: int, y: int| #[trigger] self.tile(x, y) == old(self).tile(x, y) by {
                lemma_local(x);
                lemma_local(y);
                let c = t0.chunk_at(self.lvl as nat, chunk_coord(x) + self.off_x, chunk_coord(y) + self.off_y);
                if let Some(ch) = c {
                    if ch.all_empty() {
                        assert(ch@[tile_index(local_coord(x), local_coord(y))] == Tile::Empty);
                    }
                }
            }
        }
    }

    /// The level of the tree.
    pub fn get_lvl(&self) -> (l: Level)
        ensures
            l == self.level(),
    {
        self.lvl
    }

    /// The offsets of the board's origin in the tree, in chunks.
    pub closed spec fn offsets(self) -> (int, int) {
        (self.off_x as int, self.off_y as int)
    }

    /// The rows `r.0 .. r.1` and columns `r.2 .. r.3` that the text view of
    /// the board shows: the tree's square, from its corner; the columns end
    /// where the rows do.
    pub fn display_bounds(&self) -> (r: (i64, i64, i64, i64))
        requires
            self.level() + 3 < 63,
            self.level() + 3 < usize::BITS,
        ensures
            r.0 == -8 * self.offsets().0,
            r.1 == r.0 + pow2(self.level() + 3),
            r.2 == -8 * self.offsets().1,
            r.3 == r.1,
    {
        proof {
            use_type_invariant(self);
            let l = self.lvl as nat;
            lemma_pow2_pos(l);
            lemma_usize_pow2_no_overflow(l + 3);
            lemma_usize_shl_is_mul(1, (CHUNK_LOG_SIZE + self.lvl * NODE_LOG_SIZE) as usize);
            lemma2_to64();
            vstd::arithmetic::power2::lemma_pow2_adds(l, 3);
            lemma_pow2_strictly_increases(l + 3, 63);
            vstd::arithmetic::power2::lemma2_to64_rest();
            assert(self.off_x * 8 < pow2(l + 3)) by (nonlinear_arith)
                requires
                    self.off_x < pow2(l),
                    pow2(l + 3) == pow2(l) * pow2(3),
                    pow2(3) == 8,
            ;
            assert(self.off_y * 8 < pow2(l + 3)) by (nonlinear_arith)
                requires
                    self.off_y < pow2(l),
                    pow2(l + 3) == pow2(l) * pow2(3),
                    pow2(3) == 8,
            ;
        }
        let size = (1usize << (CHUNK_LOG_SIZE + self.lvl * NODE_LOG_SIZE)) as i64;
        let min_x = -((CHUNK_SIZE * self.off_x) as i64);
        let max_x = min_x + size;
        let min_y = -((CHUNK_SIZE * self.off_y) as i64);
        let max_y = min_x + size;
        (min_x, max_x, min_y, max_y)
    }

    /// Whether (x, y) lies within the reach of writes.
    pub fn in_reach(x: i64, y: i64) -> (r: bool)
        ensures
            r == (-tile_bound() <= x < tile_bound() && -tile_bound() <= y < tile_bound()),
    {
        proof {
            lemma_level_powers(1);
            lemma_usize_pow2_no_overflow((usize::BITS - 2) as nat);
            lemma_usize_shl_is_mul(1, (usize::BITS - 2) as usize);
        }
        let b = (1usize << (usize::BITS - 2) as usize) as i64;
        -b <= x && x < b && -b <= y && y < b
    }
}

/// The mark that the text view of the board shows after tile (x, y): `-`
/// on row 0, `|` on odd rows where the column is half the row, rounded
/// down, else a blank.
pub open spec fn delimiter_of(x: int, y: int) -> char {
    if x == 0 {
        '-'
    } else if y == x / 2 && x % 2 != 0 {
        '|'
    } else {
        ' '
    }
}

proof fn lemma_halves(x: i64)
    by (bit_vector)
    ensures
        x >> 1u64 == (x / 2) as i64,
        x & 1 == (x % 2) as i64,
{
}

/// The mark that the text view of the board shows after tile (x, y).
pub fn delimiter(x: i64, y: i64) -> (c: char)
    requires
        -0x4000_0000_0000_0000 <= y < 0x4000_0000_0000_0000,
    ensures
        c == delimiter_of(x as int, y as int),
{
    proof {
        lemma_halves(x);
    }
    let mut delim: char = ' ';
    if y - (x >> 1) == 0 && (x & 1) != 0 {
        delim = '|';
    }
    if x == 0 {
        delim = '-';
    }
    delim
}

/// Reading a tile back after writing it gives the tile written.
pub proof fn lemma_read_after_write(x: int, y: int, t: Tile, before: Tile)
    ensures
        after_write(x, y, t, x, y, before) == t,
{
}

/// A write leaves the tiles of the other chunks as they were.
pub proof fn lemma_write_keeps_other_chunks(x: int, y: int, t: Tile, x2: int, y2: int, before: Tile)
    requires
        chunk_coord(x2) != chunk_coord(x) || chunk_coord(y2) != chunk_coord(y),
    ensures
        after_write(x, y, t, x2, y2, before) == before,
{
}

/// Two writes at the same tile leave what the second wrote, and the other
/// tiles as the two writes in turn leave them.
pub proof fn lemma_write_twice(x: int, y: int, t1: Tile, t2: Tile, x2: int, y2: int, before: Tile)
    ensures
        after_write(x, y, t2, x2, y2, after_write(x, y, t1, x2, y2, before)) == (if x2 == x && y2 == y {
            t2
        } else {
            after_write(x, y, t1, x2, y2, before)
        }),
{
}

} // verus!
