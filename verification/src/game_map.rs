use vstd::prelude::*;
use vstd::arithmetic::power2::{pow2, lemma_pow2_pos, lemma_pow2_unfold};
use vstd::bits::{lemma_usize_shr_is_div, lemma_usize_shl_is_mul, lemma_usize_pow2_no_overflow};
use vstd::arithmetic::div_mod::{lemma_fundamental_div_mod_converse, lemma_fundamental_div_mod, lemma_mod_bound};
use crate::map::quad_root::{chunk_bound, off_ok, lemma_level_powers};
use crate::map::quad_node::{lemma_split, lemma_quot_range, lemma_same_point};

verus! {

/// Number of stones in a row that a line checker looks at.
pub const WIN_LEN: usize = 6;

/// A tile of the board.
#[derive(Clone, Copy, PartialEq, Eq, Structural, Debug)]
pub enum Tile {
    Empty,
    X,
    O,
}

/// The character that shows a tile: blank, `X` or `O`.
pub open spec fn tile_symbol(t: Tile) -> char {
    match t {
        Tile::Empty => ' ',
        Tile::X => 'X',
        Tile::O => 'O',
    }
}

impl Tile {
    pub fn to_char(&self) -> (c: char)
        ensures
            c == tile_symbol(*self),
    {
        match self {
            Tile::Empty => ' ',
            Tile::X => 'X',
            Tile::O => 'O',
        }
    }
}

/// What a line checker answers: `Err` stops the check.
pub type CheckResult = Result<(), ()>;

/// Looks at the lines of WIN_LEN tiles of the board, one at a time.
pub trait LineChecker: Sized {
    /// Whether the checker, as it stands, stops the check at `line`.
    spec fn stops_at(&self, line: Seq<Tile>) -> bool;

    /// What the checker becomes once it has looked at `line`.
    spec fn after_line(&self, line: Seq<Tile>) -> Self;

    fn on_line(&mut self, line: &[Tile; WIN_LEN]) -> (r: CheckResult)
        ensures
            (r is Err) == old(self).stops_at(line@),
            *final(self) == old(self).after_line(line@),
    ;
}

/// What checker `c` becomes, and whether it stopped the check, once it has
/// been handed `lines` in turn, up to the line that stops it.
pub open spec fn run_checker<T: LineChecker>(c: T, lines: Seq<Seq<Tile>>) -> (T, bool)
    decreases lines.len(),
{
    if lines.len() == 0 {
        (c, false)
    } else {
        let (c1, stopped) = run_checker(c, lines.drop_last());
        if stopped {
            (c1, true)
        } else {
            (c1.after_line(lines.last()), c1.stops_at(lines.last()))
        }
    }
}

/// Handing a checker `a` and then `b` is handing it `a + b`: `b` is looked at
/// only where `a` did not stop it.
proof fn lemma_run_append<T: LineChecker>(c: T, a: Seq<Seq<Tile>>, b: Seq<Seq<Tile>>)
    ensures
        run_checker(c, a + b) == (if run_checker(c, a).1 {
            run_checker(c, a)
        } else {
            run_checker(run_checker(c, a).0, b)
        }),
    decreases b.len(),
{
    if b.len() == 0 {
        assert(a + b =~= a);
    } else {
        lemma_run_append(c, a, b.drop_last());
        assert((a + b).drop_last() =~= a + b.drop_last());
        assert((a + b).last() == b.last());
    }
}

/// One line, then the rest.
proof fn lemma_run_one<T: LineChecker>(c: T, l: Seq<Tile>, rest: Seq<Seq<Tile>>)
    ensures
        run_checker(c, seq![l] + rest) == (if c.stops_at(l) {
            (c.after_line(l), true)
        } else {
            run_checker(c.after_line(l), rest)
        }),
{
    lemma_run_append(c, seq![l], rest);
    assert(seq![l].drop_last() =~= Seq::<Seq<Tile>>::empty());
    assert(run_checker(c, Seq::<Seq<Tile>>::empty()) == (c, false));
    assert(run_checker(c, seq![l]) == (c.after_line(l), c.stops_at(l)));
}

/// The three lines of WIN_LEN tiles from (x, y): along y, along x and along
/// the diagonal.
spec fn lines_from(tile: spec_fn(int, int) -> Tile, x: int, y: int) -> Seq<Seq<Tile>> {
    seq![
        Seq::new(WIN_LEN as nat, |i: int| tile(x, y + i)),
        Seq::new(WIN_LEN as nat, |i: int| tile(x + i, y)),
        Seq::new(WIN_LEN as nat, |i: int| tile(x + i, y + i)),
    ]
}

/// The lines from the tiles (x, y), (x, y + 1), .. up to the far side of the
/// middle chunk.
spec fn row_from(tile: spec_fn(int, int) -> Tile, x: int, y: int) -> Seq<Seq<Tile>>
    decreases CHUNK_SIZE - y,
{
    if y >= CHUNK_SIZE {
        Seq::empty()
    } else {
        lines_from(tile, x, y) + row_from(tile, x, y + 1)
    }
}

/// Where row x of a scan starts: at 0 where it lies before the middle chunk
/// and the corner neighbour is there, else at `min_y`.
spec fn scan_start(min_y: int, corner: bool, x: int) -> int {
    if x < 0 && corner {
        0
    } else {
        min_y
    }
}

/// The lines of rows x, x + 1, .. of a scan, up to the far side of the
/// middle chunk.
spec fn rows_from(tile: spec_fn(int, int) -> Tile, min_y: int, corner: bool, x: int) -> Seq<Seq<Tile>>
    decreases CHUNK_SIZE - x,
{
    if x >= CHUNK_SIZE {
        Seq::empty()
    } else {
        row_from(tile, x, scan_start(min_y, corner, x)) + rows_from(tile, min_y, corner, x + 1)
    }
}

/// The lines that a check around a chunk looks at, in order, given which of
/// the neighbours before it along x, along y and on the corner are there:
/// the lines start in the chunk, or up to WIN_LEN - 1 tiles before it where
/// no neighbour owns those tiles.
spec fn scan_around(prev_x: bool, prev_y: bool, prev_xy: bool, tile: spec_fn(int, int) -> Tile) -> Seq<Seq<Tile>> {
    let min_x: int = if prev_x { 0 } else { 1 - WIN_LEN };
    let min_y: int = if prev_y { 0 } else { 1 - WIN_LEN };
    rows_from(tile, min_y, prev_xy, min_x)
}

/// Side of a chunk, in tiles.
pub const CHUNK_SIZE: usize = 4;

/// A square of CHUNK_SIZE x CHUNK_SIZE tiles, with the number of its tiles
/// that hold a stone.
struct Chunk {
    use_cnt: u64,
    tiles: [[Tile; CHUNK_SIZE]; CHUNK_SIZE],
}

/// Number of the first `n` tiles of `t`, row by row, that hold a stone.
pub open spec fn filled_upto(t: [[Tile; CHUNK_SIZE]; CHUNK_SIZE], n: int) -> nat
    decreases n,
{
    if n <= 0 {
        0
    } else {
        filled_upto(t, n - 1) + if t[(n - 1) / 4][(n - 1) % 4] != Tile::Empty {
            1nat
        } else {
            0nat
        }
    }
}

/// Changing tile (x, y) of `t` into `t2` changes the count of the first `n`
/// tiles by what that tile changed, where it lies among them.
proof fn lemma_filled_update(
    t: [[Tile; CHUNK_SIZE]; CHUNK_SIZE],
    t2: [[Tile; CHUNK_SIZE]; CHUNK_SIZE],
    x: int,
    y: int,
    n: int,
)
    requires
        0 <= x < 4,
        0 <= y < 4,
        0 <= n <= 16,
        forall|i: int, j: int| 0 <= i < 4 && 0 <= j < 4 && !(i == x && j == y) ==> t2[i][j] == t[i][j],
    ensures
        filled_upto(t2, n) + (if x * 4 + y < n && t[x][y] != Tile::Empty {
            1int
        } else {
            0int
        }) == filled_upto(t, n) + (if x * 4 + y < n && t2[x][y] != Tile::Empty {
            1int
        } else {
            0int
        }),
    decreases n,
{
    if n > 0 {
        lemma_filled_update(t, t2, x, y, n - 1);
        let k = n - 1;
        assert(0 <= k / 4 < 4 && 0 <= k % 4 < 4 && k == (k / 4) * 4 + k % 4);
        if k / 4 == x && k % 4 == y {
            assert(k == x * 4 + y);
        } else {
            assert(k != x * 4 + y);
        }
    }
}

/// The count is zero exactly where none of the first `n` tiles holds a stone.
proof fn lemma_filled_zero(t: [[Tile; CHUNK_SIZE]; CHUNK_SIZE], n: int)
    requires
        0 <= n <= 16,
    ensures
        (filled_upto(t, n) == 0) == (forall|k: int| 0 <= k < n ==> #[trigger] t[k / 4][k % 4] == Tile::Empty),
    decreases n,
{
    if n > 0 {
        lemma_filled_zero(t, n - 1);
        if filled_upto(t, n) == 0 {
            assert forall|k: int| 0 <= k < n implies #[trigger] t[k / 4][k % 4] == Tile::Empty by {
                if k < n - 1 {
                }
            }
        }
    }
}

impl Chunk {
    /// The count of stones agrees with the tiles.
    #[verifier::type_invariant]
    spec fn wf(self) -> bool {
        self.use_cnt == filled_upto(self.tiles, 16)
    }

    spec fn tile(self, x: int, y: int) -> Tile {
        self.tiles[x][y]
    }

    /// No tile of the chunk holds a stone.
    spec fn all_empty(self) -> bool {
        forall|x: int, y: int| 0 <= x < 4 && 0 <= y < 4 ==> #[trigger] self.tile(x, y) == Tile::Empty
    }

    fn new() -> (c: Chunk)
        ensures
            c.all_empty(),
    {
        let tiles = [[Tile::Empty; CHUNK_SIZE]; CHUNK_SIZE];
        proof {
            lemma_filled_zero(tiles, 16);
            assert(filled_upto(tiles, 16) == 0);
        }
        Chunk { use_cnt: 0, tiles }
    }

    fn get_tile(&self, x: usize, y: usize) -> (t: Tile)
        requires
            x < CHUNK_SIZE,
            y < CHUNK_SIZE,
        ensures
            t == self.tile(x as int, y as int),
    {
        self.tiles[x][y]
    }

    /// Writes `tile` at (x, y), keeping the count of stones.
    fn set_tile(&mut self, x: usize, y: usize, tile: Tile)
        requires
            x < CHUNK_SIZE,
            y < CHUNK_SIZE,
        ensures
            forall|i: int, j: int|
                0 <= i < 4 && 0 <= j < 4 ==> #[trigger] final(self).tile(i, j) == if i == x && j == y {
                    tile
                } else {
                    old(self).tile(i, j)
                },
    {
        proof {
            use_type_invariant(&*self);
        }
        let ghost t0 = self.tiles;
        let mut row = self.tiles[x];
        row[y] = tile;
        let mut tiles = self.tiles;
        tiles[x] = row;
        proof {
            lemma_filled_update(t0, tiles, x as int, y as int, 16);
            lemma_filled_bound(t0, 16);
            if t0[x as int][y as int] != Tile::Empty {
                lemma_filled_has(t0, x * 4 + y, 16);
            }
        }
        let mut cnt = self.use_cnt;
        if self.tiles[x][y] != Tile::Empty {
            cnt -= 1;
        }
        if tile != Tile::Empty {
            cnt += 1;
        }
        proof {
            assert(filled_upto(tiles, 16) <= 16) by {
                lemma_filled_bound(tiles, 16);
            }
        }
        *self = Chunk { use_cnt: cnt, tiles };
    }

    /// Whether no tile of the chunk holds a stone.
    fn is_empty(&self) -> (r: bool)
        ensures
            r == self.all_empty(),
    {
        proof {
            use_type_invariant(self);
            lemma_filled_zero(self.tiles, 16);
            if self.use_cnt == 0 {
                assert forall|x: int, y: int| 0 <= x < 4 && 0 <= y < 4 implies #[trigger] self.tile(x, y) == Tile::Empty by {
                    let k = x * 4 + y;
                    assert(k / 4 == x && k % 4 == y);
                }
            } else {
                let k = choose|k: int| 0 <= k < 16 && #[trigger] self.tiles[k / 4][k % 4] != Tile::Empty;
                assert(self.tile(k / 4, k % 4) != Tile::Empty);
            }
        }
        self.use_cnt == 0
    }
}

/// A stone among the first `n` tiles makes the count positive.
proof fn lemma_filled_has(t: [[Tile; CHUNK_SIZE]; CHUNK_SIZE], k: int, n: int)
    requires
        0 <= k < n,
        t[k / 4][k % 4] != Tile::Empty,
    ensures
        filled_upto(t, n) >= 1,
    decreases n,
{
    if k < n - 1 {
        lemma_filled_has(t, k, n - 1);
    }
}

/// The count of the first `n` tiles is at most `n`.
proof fn lemma_filled_bound(t: [[Tile; CHUNK_SIZE]; CHUNK_SIZE], n: int)
    requires
        0 <= n,
    ensures
        filled_upto(t, n) <= n,
    decreases n,
{
    if n > 0 {
        lemma_filled_bound(t, n - 1);
    }
}

/// Which of three chunks side by side coordinate `v` selects (0, 1 or 2),
/// and the coordinate handed to that chunk.
pub open spec fn pick(v: int) -> (int, int) {
    if v < 0 {
        (0, v - CHUNK_SIZE)
    } else if v > CHUNK_SIZE {
        (2, v + CHUNK_SIZE)
    } else {
        (1, v)
    }
}

/// A chunk and its eight neighbours; `chunks[1][1]` is the middle one.
struct NeighbourChunks<'a> {
    chunks: [[Option<&'a Chunk>; 3]; 3],
}

impl<'a> NeighbourChunks<'a> {
    /// Tile (x, y), counted from the corner of the middle chunk, can be read:
    /// the chunk it selects is missing, or it lies inside the middle chunk.
    spec fn readable(self, x: int, y: int) -> bool {
        self.chunks[pick(x).0][pick(y).0] is None || (0 <= x < CHUNK_SIZE && 0 <= y < CHUNK_SIZE)
    }

    /// The chunk (i, j) is never read by `run_line_check`: the scan keeps out
    /// of the rows, or of the columns, that a present neighbour owns.
    spec fn never_read(self, i: int, j: int) -> bool {
        ||| i == 0 && self.chunks[0][1] is Some
        ||| j == 0 && self.chunks[1][0] is Some
        ||| i == 0 && j == 0 && self.chunks[0][0] is Some
    }

    /// The tile at (x, y), counted from the corner of the middle chunk; a
    /// missing chunk holds only empty tiles.
    spec fn tile_at(self, x: int, y: int) -> Tile {
        match self.chunks[pick(x).0][pick(y).0] {
            None => Tile::Empty,
            Some(c) => c.tile(x, y),
        }
    }

    fn get_tile(&self, x: i64, y: i64) -> (t: Tile)
        requires
            i64::MIN + CHUNK_SIZE <= x <= i64::MAX - CHUNK_SIZE,
            i64::MIN + CHUNK_SIZE <= y <= i64::MAX - CHUNK_SIZE,
            self.readable(x as int, y as int),
        ensures
            t == self.tile_at(x as int, y as int),
    {
        let mut x = x;
        let mut y = y;
        let mut idx: usize = 1;
        let mut idy: usize = 1;
        if x < 0 {
            idx -= 1;
            x -= CHUNK_SIZE as i64;
        } else if x > CHUNK_SIZE as i64 {
            idx += 1;
            x += CHUNK_SIZE as i64;
        }
        if y < 0 {
            idy -= 1;
            y -= CHUNK_SIZE as i64;
        } else if y > CHUNK_SIZE as i64 {
            idy += 1;
            y += CHUNK_SIZE as i64;
        }
        match self.chunks[idx][idy] {
            None => Tile::Empty,
            Some(chunk) => chunk.get_tile(x as usize, y as usize),
        }
    }

    /// The WIN_LEN tiles from (x, y) on, in steps of (dx, dy).
    fn read_line(&self, x: i64, y: i64, dx: i64, dy: i64) -> (arr: [Tile; WIN_LEN])
        requires
            -0x100 <= x <= 0x100,
            -0x100 <= y <= 0x100,
            0 <= dx <= 1,
            0 <= dy <= 1,
            forall|i: int| 0 <= i < WIN_LEN ==> #[trigger] self.readable(x + i * dx, y + i * dy),
        ensures
            arr@ == Seq::new(WIN_LEN as nat, |i: int| self.tile_at(x + i * dx, y + i * dy)),
    {
        let mut arr: [Tile; WIN_LEN] = [Tile::Empty; WIN_LEN];
        let mut i: usize = 0;
        while i < WIN_LEN
            invariant
                i <= WIN_LEN,
                -0x100 <= x <= 0x100,
                -0x100 <= y <= 0x100,
                0 <= dx <= 1,
                0 <= dy <= 1,
                forall|i: int| 0 <= i < WIN_LEN ==> #[trigger] self.readable(x + i * dx, y + i * dy),
                forall|j: int| 0 <= j < i ==> #[trigger] arr@[j] == self.tile_at(x + j * dx, y + j * dy),
            decreases WIN_LEN - i,
        {
            let ii = i as i64;
            proof {
                assert(0 <= ii * dx <= ii && 0 <= ii * dy <= ii) by (nonlinear_arith)
                    requires
                        0 <= dx <= 1,
                        0 <= dy <= 1,
                        0 <= ii,
                ;
                assert(self.readable(x + ii * dx, y + ii * dy));
            }
            arr[i] = self.get_tile(x + ii * dx, y + ii * dy);
            i += 1;
        }
        proof {
            assert(arr@ =~= Seq::new(WIN_LEN as nat, |i: int| self.tile_at(x + i * dx, y + i * dy)));
        }
        arr
    }

    /// The tiles, counted from the corner of the middle chunk.
    spec fn tiles(self) -> spec_fn(int, int) -> Tile {
        |a: int, b: int| self.tile_at(a, b)
    }

    /// The lines that `run_line_check` hands the checker, in order.
    spec fn scan_lines(self) -> Seq<Seq<Tile>> {
        scan_around(self.chunks[0][1] is Some, self.chunks[1][0] is Some, self.chunks[0][0] is Some, self.tiles())
    }

    /// Hands `checker` the lines of WIN_LEN tiles along y, along x and along
    /// the diagonal that start in the middle chunk, or up to WIN_LEN - 1
    /// tiles before it where no neighbour owns them; stops at the first `Err`.
    fn run_line_check<T: LineChecker>(&self, checker: &mut T) -> (r: CheckResult)
        requires
            forall|i: int, j: int|
                0 <= i < 3 && 0 <= j < 3 && #[trigger] self.chunks[i][j] is Some ==> self.never_read(i, j),
        ensures
            (*final(checker), r is Err) == run_checker(*old(checker), self.scan_lines()),
    {
        let ghost c0 = *checker;
        let ghost tile = self.tiles();
        let ghost corner = self.chunks[0][0] is Some;
        let min_x: i64 = if self.chunks[0][1].is_some() {
            0
        } else {
            1 - WIN_LEN as i64
        };
        let min_y: i64 = if self.chunks[1][0].is_some() {
            0
        } else {
            1 - WIN_LEN as i64
        };
        let mut x: i64 = min_x;
        while x < CHUNK_SIZE as i64
            invariant
                forall|i: int, j: int|
                    0 <= i < 3 && 0 <= j < 3 && #[trigger] self.chunks[i][j] is Some ==> self.never_read(i, j),
                min_x == (if self.chunks[0][1] is Some { 0 } else { 1 - WIN_LEN }),
                min_y == (if self.chunks[1][0] is Some { 0 } else { 1 - WIN_LEN }),
                min_x <= x <= CHUNK_SIZE,
                tile == self.tiles(),
                corner == (self.chunks[0][0] is Some),
                c0 == *old(checker),
                run_checker(c0, self.scan_lines()) == run_checker(*checker, rows_from(tile, min_y as int, corner, x as int)),
            decreases CHUNK_SIZE - x,
        {
            let start_y = if x < 0 && self.chunks[0][0].is_some() {
                0
            } else {
                min_y
            };
            let mut y: i64 = start_y;
            proof {
                assert(start_y == scan_start(min_y as int, corner, x as int));
            }
            while y < CHUNK_SIZE as i64
                invariant
                    forall|i: int, j: int|
                        0 <= i < 3 && 0 <= j < 3 && #[trigger] self.chunks[i][j] is Some ==> self.never_read(i, j),
                    min_x == (if self.chunks[0][1] is Some { 0 } else { 1 - WIN_LEN }),
                    min_y == (if self.chunks[1][0] is Some { 0 } else { 1 - WIN_LEN }),
                    min_x <= x < CHUNK_SIZE,
                    start_y == (if x < 0 && self.chunks[0][0] is Some { 0 } else { min_y }),
                    start_y <= y <= CHUNK_SIZE,
                    tile == self.tiles(),
                    corner == (self.chunks[0][0] is Some),
                    c0 == *old(checker),
                    run_checker(c0, self.scan_lines()) == run_checker(
                        *checker,
                        row_from(tile, x as int, y as int) + rows_from(tile, min_y as int, corner, x + 1),
                    ),
                decreases CHUNK_SIZE - y,
            {
                proof {
                    assert forall|i: int, dx: int, dy: int|
                        0 <= i < WIN_LEN && 0 <= dx <= 1 && 0 <= dy <= 1 implies #[trigger] self.readable(
                        x + i * dx,
                        y + i * dy,
                    ) by {
                        assert(0 <= i * dx <= i && 0 <= i * dy <= i) by (nonlinear_arith)
                            requires
                                0 <= dx <= 1,
                                0 <= dy <= 1,
                                0 <= i,
                        ;
                        let p = pick(x + i * dx).0;
                        let q = pick(y + i * dy).0;
                        assert(0 <= p < 3 && 0 <= q < 3);
                        if self.chunks[p][q] is Some {
                            assert(self.never_read(p, q));
                        }
                    }
                    assert forall|i: int| 0 <= i < WIN_LEN implies #[trigger] self.readable(x + i * 0, y + i * 1) by {
                        assert(self.readable(x + i * 0, y + i * 1));
                    }
                    assert forall|i: int| 0 <= i < WIN_LEN implies #[trigger] self.readable(x + i * 1, y + i * 0) by {
                        assert(self.readable(x + i * 1, y + i * 0));
                    }
                    assert forall|i: int| 0 <= i < WIN_LEN implies #[trigger] self.readable(x + i * 1, y + i * 1) by {
                        assert(self.readable(x + i * 1, y + i * 1));
                    }
                }
                let ghost ls = lines_from(tile, x as int, y as int);
                let ghost rest = row_from(tile, x as int, y + 1) + rows_from(tile, min_y as int, corner, x + 1);
                proof {
                    assert(row_from(tile, x as int, y as int) + rows_from(tile, min_y as int, corner, x + 1)
                        =~= seq![ls[0]] + (seq![ls[1]] + (seq![ls[2]] + rest)));
                }
                let line = self.read_line(x, y, 0, 1);
                proof {
                    assert(line@ =~= ls[0]);
                    lemma_run_one(*checker, ls[0], seq![ls[1]] + (seq![ls[2]] + rest));
                }
                match checker.on_line(&line) {
                    Ok(()) => {},
                    Err(e) => {
                        return Err(e);
                    },
                }
                let line = self.read_line(x, y, 1, 0);
                proof {
                    assert(line@ =~= ls[1]);
                    lemma_run_one(*checker, ls[1], seq![ls[2]] + rest);
                }
                match checker.on_line(&line) {
                    Ok(()) => {},
                    Err(e) => {
                        return Err(e);
                    },
                }
                let line = self.read_line(x, y, 1, 1);
                proof {
                    assert(line@ =~= ls[2]);
                    lemma_run_one(*checker, ls[2], rest);
                }
                match checker.on_line(&line) {
                    Ok(()) => {},
                    Err(e) => {
                        return Err(e);
                    },
                }
                y += 1;
            }
            proof {
                assert(row_from(tile, x as int, y as int) + rows_from(tile, min_y as int, corner, x + 1) =~= rows_from(
                    tile,
                    min_y as int,
                    corner,
                    x + 1,
                ));
            }
            x += 1;
        }
        Ok(())
    }
}

/// Base-2 logarithm of NODE_SIZE.
const NODE_LOG_SIZE: u64 = 1;

/// Number of children along one side of a quad-tree node.
const NODE_SIZE: usize = 2;

/// Height of a quad-tree node: a node of level 0 holds chunks, one of level
/// `l + 1` holds nodes of level `l`.
type Level = u64;

/// The border chunks that a check of a tree found, or `Err` where a checker
/// stopped it.
type NodeCheckResult = Result<Vec<(usize, usize)>, ()>;

/// A node of the quad tree that stores the chunks, with the number of its
/// children that are present.
struct QuadNode {
    use_cnt: u64,
    chd: [[QuadChd; NODE_SIZE]; NODE_SIZE],
}

/// A child of a quad-tree node.
enum QuadChd {
    Empty,
    Leaf(Box<Chunk>),
    Node(Box<QuadNode>),
}

/// 1 for a child that is present, 0 for one that is not.
spec fn present(c: QuadChd) -> nat {
    if c is Empty {
        0
    } else {
        1
    }
}

/// Side, in chunks, of the square that a child of a node of level `lvl` covers.
spec fn span(lvl: nat) -> int {
    pow2(lvl) as int
}

/// Whether a child of a node of level `lvl` fits the tree's shape.
spec fn chd_wf(c: QuadChd, lvl: nat) -> bool
    decreases lvl, 0nat,
{
    match c {
        QuadChd::Empty => true,
        QuadChd::Leaf(_) => lvl == 0,
        QuadChd::Node(n) => lvl >= 1 && n.wf((lvl - 1) as nat),
    }
}

/// The chunk at chunk coordinates (x, y) below a child of a node of level
/// `lvl`, (x, y) taken relative to the child's corner.
spec fn chd_chunk_at(c: QuadChd, lvl: nat, x: int, y: int) -> Option<Chunk>
    decreases lvl, 0nat,
{
    match c {
        QuadChd::Empty => None,
        QuadChd::Leaf(ch) => Some(*ch),
        QuadChd::Node(n) => if lvl >= 1 {
            n.chunk_at((lvl - 1) as nat, x, y)
        } else {
            None
        },
    }
}

proof fn lemma_span(lvl: nat)
    requires
        lvl + 2 <= usize::BITS,
    ensures
        span(lvl) > 0,
        span(lvl + 1) == 2 * span(lvl),
        lvl >= 1 ==> span(lvl) == 2 * span((lvl - 1) as nat),
        span(lvl + 1) < usize::MAX,
{
    lemma_pow2_pos(lvl);
    lemma_pow2_unfold(lvl + 1);
    if lvl >= 1 {
        lemma_pow2_unfold(lvl);
    }
    lemma_usize_pow2_no_overflow((lvl + 1) as nat);
}

impl QuadNode {
    /// The node has the shape of a tree of level `lvl`, and counts its children.
    spec fn wf(self, lvl: nat) -> bool
        decreases lvl, 1nat,
    {
        &&& lvl + 2 <= usize::BITS
        &&& chd_wf(self.chd[0][0], lvl)
        &&& chd_wf(self.chd[0][1], lvl)
        &&& chd_wf(self.chd[1][0], lvl)
        &&& chd_wf(self.chd[1][1], lvl)
        &&& self.use_cnt == present(self.chd[0][0]) + present(self.chd[0][1]) + present(self.chd[1][0]) + present(
            self.chd[1][1],
        )
    }

    /// The chunk stored at chunk coordinates (x, y) of a tree of level `lvl`.
    spec fn chunk_at(self, lvl: nat, x: int, y: int) -> Option<Chunk>
        decreases lvl, 1nat,
    {
        let s = span(lvl);
        if s > 0 && 0 <= x && 0 <= y && 0 <= x / s < 2 && 0 <= y / s < 2 {
            chd_chunk_at(self.chd[x / s][y / s], lvl, x % s, y % s)
        } else {
            None
        }
    }

    /// No child of the node is present.
    spec fn no_children(self) -> bool {
        &&& self.chd[0][0] is Empty
        &&& self.chd[0][1] is Empty
        &&& self.chd[1][0] is Empty
        &&& self.chd[1][1] is Empty
    }

    /// The tree stores no chunk.
    spec fn no_chunks(self, lvl: nat) -> bool {
        forall|x: int, y: int| #[trigger] self.chunk_at(lvl, x, y) is None
    }

    fn new() -> (n: QuadNode)
        ensures
            n.no_children(),
            n.use_cnt == 0,
            forall|lvl: nat| lvl + 2 <= usize::BITS ==> #[trigger] n.wf(lvl),
    {
        QuadNode { use_cnt: 0, chd: [[QuadChd::Empty, QuadChd::Empty], [QuadChd::Empty, QuadChd::Empty]] }
    }

    /// Splits chunk coordinates (x, y) of a tree of level `lvl` into the child
    /// that holds them and the coordinates relative to that child.
    fn find_chd(&self, x: &mut usize, y: &mut usize, lvl: Level) -> (r: (usize, usize))
        requires
            lvl + 2 <= usize::BITS,
            *old(x) < 2 * span(lvl as nat),
            *old(y) < 2 * span(lvl as nat),
        ensures
            r.0 == (*old(x) as int) / span(lvl as nat),
            r.1 == (*old(y) as int) / span(lvl as nat),
            r.0 < NODE_SIZE,
            r.1 < NODE_SIZE,
            *final(x) == (*old(x) as int) % span(lvl as nat),
            *final(y) == (*old(y) as int) % span(lvl as nat),
    {
        proof {
            lemma_span(lvl as nat);
            lemma_split(*x as int, span(lvl as nat));
            lemma_split(*y as int, span(lvl as nat));
        }
        let scale = (lvl * NODE_LOG_SIZE) as usize;
        let idx = *x >> scale;
        let idy = *y >> scale;
        proof {
            lemma_usize_shr_is_div(*x, scale);
            lemma_usize_shr_is_div(*y, scale);
            lemma_usize_pow2_no_overflow(scale as nat);
            assert(idx * pow2(scale as nat) <= *x);
            assert(idy * pow2(scale as nat) <= *y);
            lemma_usize_shl_is_mul(idx, scale);
            lemma_usize_shl_is_mul(idy, scale);
        }
        *x = *x - (idx << scale);
        *y = *y - (idy << scale);
        (idx, idy)
    }

    /// Whether the node has no child.
    fn is_empty(&self) -> (r: bool)
        requires
            exists|l: nat| self.wf(l),
        ensures
            r == self.no_children(),
    {
        self.use_cnt == 0
    }

    /// The chunk at chunk coordinates (x, y) of a tree of level `lvl`, if it is stored.
    fn try_get_chunk_const(&self, x: usize, y: usize, lvl: Level) -> (r: Result<&Chunk, ()>)
        requires
            self.wf(lvl as nat),
            x < 2 * span(lvl as nat),
            y < 2 * span(lvl as nat),
        ensures
            match r {
                Ok(c) => self.chunk_at(lvl as nat, x as int, y as int) == Some(*c),
                Err(_) => self.chunk_at(lvl as nat, x as int, y as int) is None,
            },
        decreases lvl,
    {
        let mut x = x;
        let mut y = y;
        let (idx, idy) = self.find_chd(&mut x, &mut y, lvl);
        proof {
            lemma_span(lvl as nat);
        }
        match &self.chd[idx][idy] {
            QuadChd::Empty => Err(()),
            QuadChd::Leaf(chunk) => Ok(&**chunk),
            QuadChd::Node(chunk) => {
                proof {
                    lemma_span((lvl - 1) as nat);
                }
                chunk.try_get_chunk_const(x, y, lvl - 1)
            },
        }
    }
}

/// A node with no children stores no chunk.
proof fn lemma_no_children_no_chunks(n: QuadNode, lvl: nat, x: int, y: int)
    requires
        n.no_children(),
    ensures
        n.chunk_at(lvl, x, y) is None,
{
}

/// Changing child (idx, idy) of a node of level `lvl`, below which only the
/// chunk at (x0, y0) may change, changes no other chunk of the node.
proof fn lemma_slot_update(mid: QuadNode, nn: QuadNode, lvl: nat, idx: int, idy: int, x0: int, y0: int, x2: int, y2: int)
    requires
        lvl + 2 <= usize::BITS,
        0 <= idx < 2,
        0 <= idy < 2,
        0 <= x0 < 2 * span(lvl),
        0 <= y0 < 2 * span(lvl),
        x0 / span(lvl) == idx,
        y0 / span(lvl) == idy,
        forall|i: int, j: int| 0 <= i < 2 && 0 <= j < 2 && !(i == idx && j == idy) ==> nn.chd[i][j] == mid.chd[i][j],
        lvl >= 1 ==> mid.chd[idx][idy] is Node && nn.chd[idx][idy] is Node,
        lvl >= 1 ==> forall|a: int, b: int|
            !(a == x0 % span(lvl) && b == y0 % span(lvl)) ==> #[trigger] (nn.chd[idx][idy]->Node_0).chunk_at(
                (lvl - 1) as nat,
                a,
                b,
            ) == (mid.chd[idx][idy]->Node_0).chunk_at((lvl - 1) as nat, a, b),
        !(x2 == x0 && y2 == y0),
    ensures
        nn.chunk_at(lvl, x2, y2) == mid.chunk_at(lvl, x2, y2),
{
    let s = span(lvl);
    lemma_span(lvl);
    if 0 <= x2 && 0 <= y2 && 0 <= x2 / s < 2 && 0 <= y2 / s < 2 {
        if x2 / s == idx && y2 / s == idy {
            lemma_quot_range(x2, s);
            lemma_quot_range(y2, s);
            if lvl == 0 {
                vstd::arithmetic::power2::lemma2_to64();
                assert(s == 1);
                lemma_fundamental_div_mod_converse(x2, s, x2, 0);
                lemma_fundamental_div_mod_converse(y2, s, y2, 0);
                lemma_fundamental_div_mod_converse(x0, s, x0, 0);
                lemma_fundamental_div_mod_converse(y0, s, y0, 0);
            } else {
                if x2 % s == x0 % s && y2 % s == y0 % s {
                    lemma_same_point(x0, x2, s);
                    lemma_same_point(y0, y2, s);
                }
                assert((nn.chd[idx][idy]->Node_0).chunk_at((lvl - 1) as nat, x2 % s, y2 % s)
                    == (mid.chd[idx][idy]->Node_0).chunk_at((lvl - 1) as nat, x2 % s, y2 % s));
            }
        } else {
            assert(nn.chd[x2 / s][y2 / s] == mid.chd[x2 / s][y2 / s]);
        }
    }
}

/// `nn` differs from `mid` at most in child (idx, idy), where, below a node,
/// only the chunk at (x0, y0) may differ.
spec fn slot_changed(mid: QuadNode, nn: QuadNode, lvl: nat, idx: int, idy: int, x0: int, y0: int) -> bool {
    &&& forall|i: int, j: int| 0 <= i < 2 && 0 <= j < 2 && !(i == idx && j == idy) ==> nn.chd[i][j] == mid.chd[i][j]
    &&& lvl >= 1 ==> mid.chd[idx][idy] is Node && nn.chd[idx][idy] is Node
    &&& lvl >= 1 ==> forall|a: int, b: int|
        !(a == x0 % span(lvl) && b == y0 % span(lvl)) ==> #[trigger] (nn.chd[idx][idy]->Node_0).chunk_at(
            (lvl - 1) as nat,
            a,
            b,
        ) == (mid.chd[idx][idy]->Node_0).chunk_at((lvl - 1) as nat, a, b)
}

proof fn lemma_slot_update_all(mid: QuadNode, lvl: nat, idx: int, idy: int, x0: int, y0: int)
    requires
        lvl + 2 <= usize::BITS,
        0 <= idx < 2,
        0 <= idy < 2,
        0 <= x0 < 2 * span(lvl),
        0 <= y0 < 2 * span(lvl),
        x0 / span(lvl) == idx,
        y0 / span(lvl) == idy,
    ensures
        forall|nn: QuadNode, x2: int, y2: int|
            slot_changed(mid, nn, lvl, idx, idy, x0, y0) && !(x2 == x0 && y2 == y0) ==> #[trigger] nn.chunk_at(
                lvl,
                x2,
                y2,
            ) == mid.chunk_at(lvl, x2, y2),
{
    assert forall|nn: QuadNode, x2: int, y2: int|
        slot_changed(mid, nn, lvl, idx, idy, x0, y0) && !(x2 == x0 && y2 == y0) implies #[trigger] nn.chunk_at(
        lvl,
        x2,
        y2,
    ) == mid.chunk_at(lvl, x2, y2) by {
        lemma_slot_update(mid, nn, lvl, idx, idy, x0, y0, x2, y2);
    }
}

impl QuadNode {
    /// The chunk at chunk coordinates (x, y) of a tree of level `lvl`, created
    /// empty, with the nodes that lead to it, where it is not stored yet.
    fn get_chunk_mut(&mut self, x: usize, y: usize, lvl: Level) -> (r: &mut Chunk)
        requires
            old(self).wf(lvl as nat),
            x < 2 * span(lvl as nat),
            y < 2 * span(lvl as nat),
        ensures
            final(self).wf(lvl as nat),
            match old(self).chunk_at(lvl as nat, x as int, y as int) {
                Some(c) => *r == c,
                None => r.all_empty(),
            },
            final(self).chunk_at(lvl as nat, x as int, y as int) == Some(*final(r)),
            forall|x2: int, y2: int|
                !(x2 == x && y2 == y) ==> #[trigger] final(self).chunk_at(lvl as nat, x2, y2)
                    == old(self).chunk_at(lvl as nat, x2, y2),
        decreases lvl,
    {
        let ghost x0 = x as int;
        let ghost y0 = y as int;
        let mut x = x;
        let mut y = y;
        let (idx, idy) = self.find_chd(&mut x, &mut y, lvl);
        proof {
            lemma_span(lvl as nat);
        }
        let ghost s = span(lvl as nat);
        if matches!(self.chd[idx][idy], QuadChd::Empty) {
            if lvl == 0 {
                self.chd[idx][idy] = QuadChd::Leaf(Box::new(Chunk::new()));
            } else {
                let n = QuadNode::new();
                assert(n.wf((lvl - 1) as nat));
                self.chd[idx][idy] = QuadChd::Node(Box::new(n));
            }
            self.use_cnt += 1;
        }
        let ghost mid = *self;
        assert(mid.wf(lvl as nat));
        assert forall|x2: int, y2: int| !(x2 == x0 && y2 == y0) implies #[trigger] mid.chunk_at(lvl as nat, x2, y2)
            == old(self).chunk_at(lvl as nat, x2, y2) by {
            if 0 <= x2 && 0 <= y2 && x2 / s == idx && y2 / s == idy {
                lemma_quot_range(x2, s);
                lemma_quot_range(y2, s);
                if old(self).chd[idx as int][idy as int] is Empty {
                    if lvl == 0 {
                        vstd::arithmetic::power2::lemma2_to64();
                        lemma_fundamental_div_mod_converse(x2, s, x2, 0);
                        lemma_fundamental_div_mod_converse(y2, s, y2, 0);
                        lemma_fundamental_div_mod_converse(x0, s, x0, 0);
                        lemma_fundamental_div_mod_converse(y0, s, y0, 0);
                    } else {
                        if let QuadChd::Node(n) = mid.chd[idx as int][idy as int] {
                            lemma_no_children_no_chunks(*n, (lvl - 1) as nat, x2 % s, y2 % s);
                        }
                    }
                }
            }
        }
        proof {
            lemma_slot_update_all(mid, lvl as nat, idx as int, idy as int, x0, y0);
        }
        match &mut self.chd[idx][idy] {
            QuadChd::Leaf(chunk) => {
                proof {
                    assert(lvl == 0);
                    vstd::arithmetic::power2::lemma2_to64();
                    lemma_fundamental_div_mod_converse(x0, s, x0, 0);
                    lemma_fundamental_div_mod_converse(y0, s, y0, 0);
                }
                &mut **chunk
            },
            QuadChd::Node(n) => {
                proof {
                    lemma_span((lvl - 1) as nat);
                    if old(self).chd[idx as int][idy as int] is Empty {
                        lemma_no_children_no_chunks(**n, (lvl - 1) as nat, x as int, y as int);
                    }
                }
                let ghost n0 = **n;
                n.get_chunk_mut(x, y, lvl - 1)
            },
            QuadChd::Empty => unreached(),
        }
    }
}

impl QuadNode {
    /// The chunk at chunk coordinates (x, y) of a tree of level `lvl`, for
    /// writing, where it is stored and holds a stone. On the way down, a
    /// child that holds nothing, an empty chunk or a node without children,
    /// is dropped.
    fn try_get_chunk_mut(&mut self, x: usize, y: usize, lvl: Level) -> (r: Result<&mut Chunk, ()>)
        requires
            old(self).wf(lvl as nat),
            x < 2 * span(lvl as nat),
            y < 2 * span(lvl as nat),
        ensures
            final(self).wf(lvl as nat),
            forall|x2: int, y2: int|
                !(x2 == x && y2 == y) ==> #[trigger] final(self).chunk_at(lvl as nat, x2, y2)
                    == old(self).chunk_at(lvl as nat, x2, y2),
            match r {
                Ok(c) => {
                    &&& old(self).chunk_at(lvl as nat, x as int, y as int) == Some(*c)
                    &&& !c.all_empty()
                    &&& final(self).chunk_at(lvl as nat, x as int, y as int) == Some(*final(c))
                },
                Err(_) => {
                    &&& final(self).chunk_at(lvl as nat, x as int, y as int) is None
                    &&& match old(self).chunk_at(lvl as nat, x as int, y as int) {
                        Some(c) => c.all_empty(),
                        None => true,
                    }
                },
            },
        decreases lvl,
    {
        let ghost x0 = x as int;
        let ghost y0 = y as int;
        let mut x = x;
        let mut y = y;
        let (idx, idy) = self.find_chd(&mut x, &mut y, lvl);
        proof {
            lemma_span(lvl as nat);
        }
        let ghost s = span(lvl as nat);
        let prune = match &self.chd[idx][idy] {
            QuadChd::Empty => false,
            QuadChd::Leaf(chunk) => chunk.is_empty(),
            QuadChd::Node(chunk) => {
                assert(chunk.wf((lvl - 1) as nat));
                chunk.is_empty()
            },
        };
        if prune {
            self.chd[idx][idy] = QuadChd::Empty;
            self.use_cnt -= 1;
        }
        let ghost mid = *self;
        proof {
            assert(mid.wf(lvl as nat));
            assert forall|x2: int, y2: int| !(x2 == x0 && y2 == y0) implies #[trigger] mid.chunk_at(lvl as nat, x2, y2)
                == old(self).chunk_at(lvl as nat, x2, y2) by {
                if prune && 0 <= x2 && 0 <= y2 && x2 / s == idx && y2 / s == idy {
                    lemma_quot_range(x2, s);
                    lemma_quot_range(y2, s);
                    if lvl == 0 {
                        vstd::arithmetic::power2::lemma2_to64();
                        lemma_fundamental_div_mod_converse(x2, s, x2, 0);
                        lemma_fundamental_div_mod_converse(y2, s, y2, 0);
                        lemma_fundamental_div_mod_converse(x0, s, x0, 0);
                        lemma_fundamental_div_mod_converse(y0, s, y0, 0);
                    } else if let QuadChd::Node(n) = old(self).chd[idx as int][idy as int] {
                        lemma_no_children_no_chunks(*n, (lvl - 1) as nat, x2 % s, y2 % s);
                    }
                }
            }
            if prune {
                if lvl >= 1 {
                    if let QuadChd::Node(n) = old(self).chd[idx as int][idy as int] {
                        lemma_no_children_no_chunks(*n, (lvl - 1) as nat, x0 % s, y0 % s);
                    }
                }
            }
            lemma_slot_update_all(mid, lvl as nat, idx as int, idy as int, x0, y0);
        }
        match &mut self.chd[idx][idy] {
            QuadChd::Empty => Err(()),
            QuadChd::Leaf(chunk) => {
                proof {
                    assert(lvl == 0);
                    vstd::arithmetic::power2::lemma2_to64();
                    lemma_fundamental_div_mod_converse(x0, s, x0, 0);
                    lemma_fundamental_div_mod_converse(y0, s, y0, 0);
                }
                Ok(&mut **chunk)
            },
            QuadChd::Node(n) => {
                proof {
                    lemma_span((lvl - 1) as nat);
                }
                n.try_get_chunk_mut(x, y, lvl - 1)
            },
        }
    }

    /// The chunk at chunk coordinates (x, y), where it is stored and holds a
    /// stone, dropping on the way what holds nothing (see `try_get_chunk_mut`).
    fn try_get_chunk(&mut self, x: usize, y: usize, lvl: Level) -> (r: Result<&Chunk, ()>)
        requires
            old(self).wf(lvl as nat),
            x < 2 * span(lvl as nat),
            y < 2 * span(lvl as nat),
        ensures
            final(self).wf(lvl as nat),
            forall|x2: int, y2: int|
                !(x2 == x && y2 == y) ==> #[trigger] final(self).chunk_at(lvl as nat, x2, y2)
                    == old(self).chunk_at(lvl as nat, x2, y2),
            match r {
                Ok(c) => {
                    &&& old(self).chunk_at(lvl as nat, x as int, y as int) == Some(*c)
                    &&& !c.all_empty()
                    &&& final(self).chunk_at(lvl as nat, x as int, y as int) == Some(*c)
                },
                Err(_) => {
                    &&& final(self).chunk_at(lvl as nat, x as int, y as int) is None
                    &&& match old(self).chunk_at(lvl as nat, x as int, y as int) {
                        Some(c) => c.all_empty(),
                        None => true,
                    }
                },
            },
    {
        match self.try_get_chunk_mut(x, y, lvl) {
            Ok(c) => Ok(&*c),
            Err(e) => Err(e),
        }
    }

    /// The chunk at chunk coordinates (x, y), created empty, with the nodes
    /// that lead to it, where it is not stored yet.
    fn get_chunk(&mut self, x: usize, y: usize, lvl: Level) -> (r: &Chunk)
        requires
            old(self).wf(lvl as nat),
            x < 2 * span(lvl as nat),
            y < 2 * span(lvl as nat),
        ensures
            final(self).wf(lvl as nat),
            match old(self).chunk_at(lvl as nat, x as int, y as int) {
                Some(c) => *r == c,
                None => r.all_empty(),
            },
            final(self).chunk_at(lvl as nat, x as int, y as int) == Some(*r),
            forall|x2: int, y2: int|
                !(x2 == x && y2 == y) ==> #[trigger] final(self).chunk_at(lvl as nat, x2, y2)
                    == old(self).chunk_at(lvl as nat, x2, y2),
    {
        self.get_chunk_mut(x, y, lvl)
    }
}

/// The chunk at (x, y) of a tree of level `lvl` is stored and holds a stone.
spec fn live_at(n: QuadNode, lvl: nat, x: int, y: int) -> bool {
    match n.chunk_at(lvl, x, y) {
        Some(c) => !c.all_empty(),
        None => false,
    }
}

/// A tree of level `lvl` stores no chunk outside its square.
proof fn lemma_outside_no_chunk(n: QuadNode, lvl: nat, x: int, y: int)
    requires
        lvl + 2 <= usize::BITS,
        !(0 <= x < 2 * span(lvl) && 0 <= y < 2 * span(lvl)),
    ensures
        n.chunk_at(lvl, x, y) is None,
{
    lemma_span(lvl);
    let s = span(lvl);
    if 0 <= x && 0 <= y && x / s < 2 && y / s < 2 {
        lemma_quot_range(x, s);
        lemma_quot_range(y, s);
    }
}

/// Where a tree stores no chunk, neither does a child node of it, and no
/// child is a chunk.
proof fn lemma_no_chunks_below(n: QuadNode, lvl: nat, i: int, j: int)
    requires
        n.wf(lvl),
        n.no_chunks(lvl),
        0 <= i < 2,
        0 <= j < 2,
    ensures
        n.chd[i][j] !is Leaf,
        n.chd[i][j] is Node ==> (n.chd[i][j]->Node_0).no_chunks((lvl - 1) as nat),
{
    let s = span(lvl);
    lemma_span(lvl);
    assert(chd_wf(n.chd[i][j], lvl));
    lemma_fundamental_div_mod_converse(i * s, s, i, 0);
    lemma_fundamental_div_mod_converse(j * s, s, j, 0);
    assert(n.chunk_at(lvl, i * s, j * s) is None);
    if let QuadChd::Node(c) = n.chd[i][j] {
        lemma_span((lvl - 1) as nat);
        assert forall|a: int, b: int| #[trigger] c.chunk_at((lvl - 1) as nat, a, b) is None by {
            if 0 <= a < s && 0 <= b < s {
                lemma_fundamental_div_mod_converse(i * s + a, s, i, a);
                lemma_fundamental_div_mod_converse(j * s + b, s, j, b);
                assert(n.chunk_at(lvl, i * s + a, j * s + b) is None);
            } else {
                lemma_outside_no_chunk(*c, (lvl - 1) as nat, a, b);
            }
        }
    }
}

/// The chunk that a reference points to, if any.
spec fn deref_chunk(o: Option<&Chunk>) -> Option<Chunk> {
    match o {
        Some(c) => Some(*c),
        None => None,
    }
}

/// The chunk at (x, y) of a tree of level `lvl` where it holds a stone.
spec fn live_chunk(n: QuadNode, lvl: nat, x: int, y: int) -> Option<Chunk> {
    if live_at(n, lvl, x, y) {
        n.chunk_at(lvl, x, y)
    } else {
        None
    }
}

/// (a, b) is the chunk (x, y) or one of its eight neighbours.
spec fn in_block(x: int, y: int, a: int, b: int) -> bool {
    x - 1 <= a <= x + 1 && y - 1 <= b <= y + 1
}

/// The tiles around the chunk at (x, y) of a tree of level `lvl`, counted
/// from the corner of that chunk, as a check around it reads them: only the
/// chunks that hold a stone are read, the others count as empty.
spec fn around_tiles(n: QuadNode, lvl: nat, x: int, y: int) -> spec_fn(int, int) -> Tile {
    |a: int, b: int|
        match live_chunk(n, lvl, x + pick(a).0 - 1, y + pick(b).0 - 1) {
            None => Tile::Empty,
            Some(c) => c.tile(a, b),
        }
}

/// The lines that a check around the chunk at (x, y) of a tree of level
/// `lvl` hands its checker, in order.
spec fn around_lines(n: QuadNode, lvl: nat, x: int, y: int) -> Seq<Seq<Tile>> {
    scan_around(
        live_at(n, lvl, x - 1, y),
        live_at(n, lvl, x, y - 1),
        live_at(n, lvl, x - 1, y - 1),
        around_tiles(n, lvl, x, y),
    )
}

impl QuadNode {
    /// Checks the lines around the chunk at (x, y) of a tree of level `lvl`,
    /// after dropping what holds nothing among it and its eight neighbours.
    fn check_around<T: LineChecker>(&mut self, checker: &mut T, x: usize, y: usize, lvl: Level) -> (r: CheckResult)
        requires
            old(self).wf(lvl as nat),
            1 <= x,
            1 <= y,
            x + 1 < 2 * span(lvl as nat),
            y + 1 < 2 * span(lvl as nat),
            forall|i: int, j: int|
                0 <= i < 3 && 0 <= j < 3 && #[trigger] live_at(*old(self), lvl as nat, x + i - 1, y + j - 1) ==> {
                    ||| i == 0 && live_at(*old(self), lvl as nat, x - 1, y as int)
                    ||| j == 0 && live_at(*old(self), lvl as nat, x as int, y - 1)
                    ||| i == 0 && j == 0 && live_at(*old(self), lvl as nat, x - 1, y - 1)
                },
        ensures
            final(self).wf(lvl as nat),
            forall|a: int, b: int| #[trigger] live_at(*final(self), lvl as nat, a, b) == live_at(*old(self), lvl as nat, a, b),
            forall|a: int, b: int| #[trigger]
                final(self).chunk_at(lvl as nat, a, b) == if in_block(x as int, y as int, a, b) {
                    live_chunk(*old(self), lvl as nat, a, b)
                } else {
                    old(self).chunk_at(lvl as nat, a, b)
                },
            (*final(checker), r is Err) == run_checker(*old(checker), around_lines(*old(self), lvl as nat, x as int, y as int)),
    {
        let ghost n0 = *self;
        let mut i: usize = 0;
        while i < 3
            invariant
                0 <= i <= 3,
                self.wf(lvl as nat),
                1 <= x,
                1 <= y,
                x + 1 < 2 * span(lvl as nat),
                y + 1 < 2 * span(lvl as nat),
                forall|a: int, b: int| #[trigger] live_at(*self, lvl as nat, a, b) == live_at(n0, lvl as nat, a, b),
                forall|a: int, b: int|
                    live_at(n0, lvl as nat, a, b) || !in_block(x as int, y as int, a, b) ==> #[trigger] self.chunk_at(
                        lvl as nat,
                        a,
                        b,
                    ) == n0.chunk_at(lvl as nat, a, b),
                forall|a: int, b: int| #[trigger]
                    self.chunk_at(lvl as nat, a, b) == if in_block(x as int, y as int, a, b) && (a - (x - 1) < i) {
                        live_chunk(n0, lvl as nat, a, b)
                    } else {
                        n0.chunk_at(lvl as nat, a, b)
                    },
                forall|ii: int, jj: int|
                    0 <= ii < i && 0 <= jj < 3 && (#[trigger] self.chunk_at(lvl as nat, x + ii - 1, y + jj - 1)) is Some
                        ==> live_at(*self, lvl as nat, x + ii - 1, y + jj - 1),
            decreases 3 - i,
        {
            let mut j: usize = 0;
            while j < 3
                invariant
                    0 <= i < 3,
                    0 <= j <= 3,
                    self.wf(lvl as nat),
                    1 <= x,
                    1 <= y,
                    x + 1 < 2 * span(lvl as nat),
                    y + 1 < 2 * span(lvl as nat),
                    forall|a: int, b: int| #[trigger] live_at(*self, lvl as nat, a, b) == live_at(n0, lvl as nat, a, b),
                    forall|a: int, b: int|
                        live_at(n0, lvl as nat, a, b) || !in_block(x as int, y as int, a, b) ==> #[trigger] self.chunk_at(
                            lvl as nat,
                            a,
                            b,
                        ) == n0.chunk_at(lvl as nat, a, b),
                    forall|a: int, b: int| #[trigger]
                        self.chunk_at(lvl as nat, a, b) == if in_block(x as int, y as int, a, b) && (a - (x - 1) < i || (a
                            - (x - 1) == i && b - (y - 1) < j)) {
                            live_chunk(n0, lvl as nat, a, b)
                        } else {
                            n0.chunk_at(lvl as nat, a, b)
                        },
                    forall|ii: int, jj: int|
                        0 <= ii < 3 && 0 <= jj < 3 && (ii < i || (ii == i && jj < j)) && (#[trigger] self.chunk_at(
                            lvl as nat,
                            x + ii - 1,
                            y + jj - 1,
                        )) is Some ==> live_at(*self, lvl as nat, x + ii - 1, y + jj - 1),
                decreases 3 - j,
            {
                proof {
                    lemma_span(lvl as nat);
                }
                let ghost before = *self;
                let _ = self.try_get_chunk(x + i - 1, y + j - 1, lvl);
                proof {
                    assert forall|a: int, b: int| #[trigger] live_at(*self, lvl as nat, a, b) == live_at(n0, lvl as nat, a, b) by {
                        assert(live_at(before, lvl as nat, a, b) == live_at(n0, lvl as nat, a, b));
                    }
                    assert forall|a: int, b: int|
                        live_at(n0, lvl as nat, a, b) || !in_block(x as int, y as int, a, b) implies #[trigger] self.chunk_at(
                            lvl as nat,
                            a,
                            b,
                        ) == n0.chunk_at(lvl as nat, a, b) by {
                        assert(before.chunk_at(lvl as nat, a, b) == n0.chunk_at(lvl as nat, a, b));
                        assert(live_at(before, lvl as nat, a, b) == live_at(n0, lvl as nat, a, b));
                    }
                    assert forall|a: int, b: int| #[trigger]
                        self.chunk_at(lvl as nat, a, b) == if in_block(x as int, y as int, a, b) && (a - (x - 1) < i || (a
                            - (x - 1) == i && b - (y - 1) < j + 1)) {
                            live_chunk(n0, lvl as nat, a, b)
                        } else {
                            n0.chunk_at(lvl as nat, a, b)
                        } by {
                        assert(before.chunk_at(lvl as nat, a, b) == if in_block(x as int, y as int, a, b) && (a - (x - 1)
                            < i || (a - (x - 1) == i && b - (y - 1) < j)) {
                            live_chunk(n0, lvl as nat, a, b)
                        } else {
                            n0.chunk_at(lvl as nat, a, b)
                        });
                        assert(live_at(before, lvl as nat, a, b) == live_at(n0, lvl as nat, a, b));
                    }
                    assert forall|ii: int, jj: int|
                        0 <= ii < 3 && 0 <= jj < 3 && (ii < i || (ii == i && jj < j + 1)) && (#[trigger] self.chunk_at(
                            lvl as nat,
                            x + ii - 1,
                            y + jj - 1,
                        )) is Some implies live_at(*self, lvl as nat, x + ii - 1, y + jj - 1) by {
                        if !(ii == i && jj == j) {
                            assert(before.chunk_at(lvl as nat, x + ii - 1, y + jj - 1) is Some);
                        }
                    }
                }
                j += 1;
            }
            i += 1;
        }
        let mut chunks: [[Option<&Chunk>; 3]; 3] = [[None; 3]; 3];
        let mut i: usize = 0;
        while i < 3
            invariant
                0 <= i <= 3,
                self.wf(lvl as nat),
                1 <= x,
                1 <= y,
                x + 1 < 2 * span(lvl as nat),
                y + 1 < 2 * span(lvl as nat),
                forall|a: int, b: int| #[trigger] live_at(*self, lvl as nat, a, b) == live_at(n0, lvl as nat, a, b),
                forall|a: int, b: int|
                    live_at(n0, lvl as nat, a, b) || !in_block(x as int, y as int, a, b) ==> #[trigger] self.chunk_at(
                        lvl as nat,
                        a,
                        b,
                    ) == n0.chunk_at(lvl as nat, a, b),
                forall|a: int, b: int| #[trigger]
                    self.chunk_at(lvl as nat, a, b) == if in_block(x as int, y as int, a, b) {
                        live_chunk(n0, lvl as nat, a, b)
                    } else {
                        n0.chunk_at(lvl as nat, a, b)
                    },
                forall|ii: int, jj: int|
                    0 <= ii < 3 && 0 <= jj < 3 && (#[trigger] self.chunk_at(lvl as nat, x + ii - 1, y + jj - 1)) is Some
                        ==> live_at(*self, lvl as nat, x + ii - 1, y + jj - 1),
                forall|ii: int, jj: int|
                    0 <= ii < i && 0 <= jj < 3 ==> deref_chunk(#[trigger] chunks[ii][jj]) == live_chunk(
                        n0,
                        lvl as nat,
                        x + ii - 1,
                        y + jj - 1,
                    ),
            decreases 3 - i,
        {
            let mut row: [Option<&Chunk>; 3] = [None; 3];
            let mut j: usize = 0;
            while j < 3
                invariant
                    0 <= i < 3,
                    0 <= j <= 3,
                    self.wf(lvl as nat),
                    1 <= x,
                    1 <= y,
                    x + 1 < 2 * span(lvl as nat),
                    y + 1 < 2 * span(lvl as nat),
                    forall|a: int, b: int| #[trigger] live_at(*self, lvl as nat, a, b) == live_at(n0, lvl as nat, a, b),
                    forall|a: int, b: int|
                        live_at(n0, lvl as nat, a, b) || !in_block(x as int, y as int, a, b) ==> #[trigger] self.chunk_at(
                            lvl as nat,
                            a,
                            b,
                        ) == n0.chunk_at(lvl as nat, a, b),
                    forall|a: int, b: int| #[trigger]
                        self.chunk_at(lvl as nat, a, b) == if in_block(x as int, y as int, a, b) {
                            live_chunk(n0, lvl as nat, a, b)
                        } else {
                            n0.chunk_at(lvl as nat, a, b)
                        },
                    forall|ii: int, jj: int|
                        0 <= ii < 3 && 0 <= jj < 3 && (#[trigger] self.chunk_at(lvl as nat, x + ii - 1, y + jj - 1))
                            is Some ==> live_at(*self, lvl as nat, x + ii - 1, y + jj - 1),
                    forall|jj: int|
                        0 <= jj < j ==> deref_chunk(#[trigger] row[jj]) == live_chunk(n0, lvl as nat, x + i - 1, y + jj - 1),
                decreases 3 - j,
            {
                proof {
                    lemma_span(lvl as nat);
                }
                row[j] = match self.try_get_chunk_const(x + i - 1, y + j - 1, lvl) {
                    Ok(c) => Some(c),
                    Err(_) => None,
                };
                proof {
                    let a = x + i - 1;
                    let b = y + j - 1;
                    assert(self.chunk_at(lvl as nat, a, b) is Some ==> live_at(*self, lvl as nat, a, b));
                    assert(live_at(*self, lvl as nat, a, b) == live_at(n0, lvl as nat, a, b));
                    if live_at(n0, lvl as nat, a, b) {
                        assert(self.chunk_at(lvl as nat, a, b) == n0.chunk_at(lvl as nat, a, b));
                    }
                }
                j += 1;
            }
            chunks[i] = row;
            i += 1;
        }
        let neigh = NeighbourChunks { chunks };
        proof {
            assert forall|i: int, j: int|
                0 <= i < 3 && 0 <= j < 3 && #[trigger] neigh.chunks[i][j] is Some implies neigh.never_read(i, j) by {
                assert(deref_chunk(neigh.chunks[i][j]) == live_chunk(n0, lvl as nat, x + i - 1, y + j - 1));
                assert(deref_chunk(neigh.chunks[0][1]) == live_chunk(n0, lvl as nat, x + 0 - 1, y + 1 - 1));
                assert(deref_chunk(neigh.chunks[1][0]) == live_chunk(n0, lvl as nat, x + 1 - 1, y + 0 - 1));
                assert(deref_chunk(neigh.chunks[0][0]) == live_chunk(n0, lvl as nat, x + 0 - 1, y + 0 - 1));
            }
            assert(deref_chunk(neigh.chunks[0][1]) == live_chunk(n0, lvl as nat, x + 0 - 1, y + 1 - 1));
            assert(deref_chunk(neigh.chunks[1][0]) == live_chunk(n0, lvl as nat, x + 1 - 1, y + 0 - 1));
            assert(deref_chunk(neigh.chunks[0][0]) == live_chunk(n0, lvl as nat, x + 0 - 1, y + 0 - 1));
            assert forall|a: int, b: int| #[trigger] neigh.tiles()(a, b) == around_tiles(n0, lvl as nat, x as int, y as int)(a, b) by {
                let p = pick(a).0;
                let q = pick(b).0;
                assert(0 <= p < 3 && 0 <= q < 3);
                assert(deref_chunk(neigh.chunks[p][q]) == live_chunk(n0, lvl as nat, x + p - 1, y + q - 1));
            }
            assert(neigh.tiles() =~= around_tiles(n0, lvl as nat, x as int, y as int));
            assert(neigh.scan_lines() == around_lines(n0, lvl as nat, x as int, y as int));
        }
        neigh.run_line_check(checker)
    }

    /// Hands `checker` the lines of the chunks of a tree of level `lvl`, and
    /// gives back the chunks on the border of its square. A check stops at
    /// the first `Err`.
    fn run_line_check<T: LineChecker>(&mut self, checker: &mut T, lvl: Level) -> (r: NodeCheckResult)
        requires
            old(self).wf(lvl as nat),
            old(self).no_chunks(lvl as nat),
        ensures
            *final(self) == *old(self),
            *final(checker) == *old(checker),
            r matches Ok(v) && v@.len() == 0,
        decreases lvl,
    {
        proof {
            lemma_span(lvl as nat);
            lemma_usize_pow2_no_overflow(lvl as nat);
            lemma_usize_shl_is_mul(1, lvl as usize);
        }
        let chd_size: usize = 1usize << ((lvl * NODE_LOG_SIZE) as usize);
        proof {
            vstd::arithmetic::power2::lemma2_to64();
            lemma_usize_shl_is_mul(chd_size, 1);
        }
        let size: usize = chd_size << (NODE_LOG_SIZE as usize);
        let mut leaves: Vec<(usize, usize)> = Vec::new();
        let ghost n0 = *self;
        let mut idx: usize = 0;
        while idx < NODE_SIZE
            invariant
                idx <= NODE_SIZE,
                *self == n0,
                n0.wf(lvl as nat),
                n0.no_chunks(lvl as nat),
                *checker == *old(checker),
                leaves@.len() == 0,
                chd_size == span(lvl as nat),
                size == 2 * span(lvl as nat),
            decreases NODE_SIZE - idx,
        {
            let mut idy: usize = 0;
            while idy < NODE_SIZE
                invariant
                    idx < NODE_SIZE,
                    idy <= NODE_SIZE,
                    *self == n0,
                    n0.wf(lvl as nat),
                    n0.no_chunks(lvl as nat),
                    *checker == *old(checker),
                    leaves@.len() == 0,
                    chd_size == span(lvl as nat),
                    size == 2 * span(lvl as nat),
                decreases NODE_SIZE - idy,
            {
                proof {
                    lemma_no_chunks_below(n0, lvl as nat, idx as int, idy as int);
                }
                let mut chd_leaves: Vec<(usize, usize)> = Vec::new();
                match &mut self.chd[idx][idy] {
                    QuadChd::Empty => {},
                    QuadChd::Leaf(_) => chd_leaves.push((0, 0)),
                    QuadChd::Node(chunk) => {
                        match (&mut **chunk).run_line_check(checker, lvl - 1) {
                            Ok(v) => {
                                chd_leaves = v;
                            },
                            Err(e) => {
                                return Err(e);
                            },
                        }
                    },
                }
                proof {
                    assert(self.chd[idx as int] =~= n0.chd[idx as int]);
                    assert(self.chd =~= n0.chd);
                }
                let mut k: usize = 0;
                while k < chd_leaves.len()
                    invariant
                        chd_leaves@.len() == 0,
                        idx < NODE_SIZE,
                        idy < NODE_SIZE,
                        *self == n0,
                        n0.wf(lvl as nat),
                        n0.no_chunks(lvl as nat),
                        *checker == *old(checker),
                        leaves@.len() == 0,
                        chd_size == span(lvl as nat),
                        size == 2 * span(lvl as nat),
                    decreases chd_leaves@.len() - k,
                {
                    let (mut x, mut y) = chd_leaves[k];
                    x += chd_size * idx;
                    y += chd_size * idy;
                    if x == 0 || x == size - 1 || y == 0 || y == size - 1 {
                        leaves.push((x, y));
                    }
                    self.check_around(checker, x, y, lvl)?;
                    k += 1;
                }
                idy += 1;
            }
            idx += 1;
        }
        Ok(leaves)
    }
}

/// Base-2 logarithm of CHUNK_SIZE.
const CHUNK_LOG_SIZE: u64 = 2;

/// Bound on the absolute value of the tile coordinates that a write may
/// reach: writes take coordinates in [-reach(), reach()).
pub open spec fn reach() -> int {
    4 * chunk_bound()
}

proof fn lemma_coords(x: i64)
    ensures
        x >> 2u64 == (x / 4) as i64,
        (x as usize) & 3usize == (x % 4) as usize,
{
    lemma_shift_low(x);
    lemma_low_bits(x);
}

proof fn lemma_shift_low(x: i64)
    by (bit_vector)
    ensures
        x >> 2u64 == (x / 4) as i64,
        x & 3i64 == (x % 4) as i64,
{
}

proof fn lemma_low_bits(x: i64)
    by (bit_vector)
    ensures
        (x as usize) & 3usize == (x & 3i64) as usize,
{
}

/// Placing a tree of level `l` as child (wx, wy) of a new root of level
/// `l + 1` moves each chunk by `wx * pow2(l + 1)`, `wy * pow2(l + 1)`.
proof fn lemma_grow(old: QuadNode, top: QuadNode, l: nat, wx: int, wy: int)
    requires
        l + 3 <= usize::BITS,
        0 <= wx < 2,
        0 <= wy < 2,
        old.wf(l),
        top.chd[wx][wy] == QuadChd::Node(Box::new(old)),
        forall|i: int, j: int| 0 <= i < 2 && 0 <= j < 2 && !(i == wx && j == wy) ==> top.chd[i][j] is Empty,
        top.use_cnt == 1,
    ensures
        top.wf(l + 1),
        forall|cx: int, cy: int|
            #[trigger] top.chunk_at(l + 1, cx + wx * span(l + 1), cy + wy * span(l + 1)) == old.chunk_at(l, cx, cy),
{
    let s = span(l + 1);
    lemma_span(l);
    lemma_span(l + 1);
    assert(top.wf(l + 1));
    assert forall|cx: int, cy: int|
        #[trigger] top.chunk_at(l + 1, cx + wx * span(l + 1), cy + wy * span(l + 1)) == old.chunk_at(l, cx, cy) by {
        let a = cx + wx * s;
        let b = cy + wy * s;
        if 0 <= cx < s && 0 <= cy < s {
            lemma_fundamental_div_mod_converse(a, s, wx, cx);
            lemma_fundamental_div_mod_converse(b, s, wy, cy);
        } else {
            lemma_outside_no_chunk(old, l, cx, cy);
            if 0 <= a && 0 <= b && 0 <= a / s < 2 && 0 <= b / s < 2 {
                lemma_fundamental_div_mod(a, s);
                lemma_fundamental_div_mod(b, s);
                lemma_mod_bound(a, s);
                lemma_mod_bound(b, s);
                let i = a / s;
                let j = b / s;
                if i == wx && j == wy {
                    assert(false) by (nonlinear_arith)
                        requires
                            a == s * i + a % s,
                            b == s * j + b % s,
                            0 <= a % s < s,
                            0 <= b % s < s,
                            a == cx + wx * s,
                            b == cy + wy * s,
                            i == wx,
                            j == wy,
                            !(0 <= cx < s && 0 <= cy < s),
                    ;
                }
            }
        }
    }
}

/// Tile (lx, ly) of the chunk at (cx, cy) of a tree of level `lvl`; a chunk
/// that is not stored holds only empty tiles.
spec fn tile_in(t: QuadNode, lvl: nat, cx: int, cy: int, lx: int, ly: int) -> Tile {
    match t.chunk_at(lvl, cx, cy) {
        Some(c) => c.tile(lx, ly),
        None => Tile::Empty,
    }
}

/// `t1` is what a probe of the chunk at (x, y) leaves of tree `t0`: only
/// that chunk may go, and only where it holds nothing.
spec fn probed(t0: QuadNode, t1: QuadNode, lvl: nat, x: int, y: int) -> bool {
    &&& forall|x2: int, y2: int| !(x2 == x && y2 == y) ==> #[trigger] t1.chunk_at(lvl, x2, y2) == t0.chunk_at(lvl, x2, y2)
    &&& (t1.chunk_at(lvl, x, y) == t0.chunk_at(lvl, x, y) || (t1.chunk_at(lvl, x, y) is None && match t0.chunk_at(
        lvl,
        x,
        y,
    ) {
        Some(c) => c.all_empty(),
        None => true,
    }))
}

/// A probe keeps the tiles of the tree, and which chunks hold a stone.
proof fn lemma_probe_keeps(t0: QuadNode, lvl: nat, x: int, y: int)
    ensures
        forall|t1: QuadNode, a: int, b: int|
            probed(t0, t1, lvl, x, y) ==> #[trigger] live_at(t1, lvl, a, b) == live_at(t0, lvl, a, b),
        forall|t1: QuadNode, cx: int, cy: int, lx: int, ly: int|
            probed(t0, t1, lvl, x, y) && 0 <= lx < 4 && 0 <= ly < 4 ==> #[trigger] tile_in(t1, lvl, cx, cy, lx, ly)
                == tile_in(t0, lvl, cx, cy, lx, ly),
{
    assert forall|t1: QuadNode, a: int, b: int|
        probed(t0, t1, lvl, x, y) implies #[trigger] live_at(t1, lvl, a, b) == live_at(t0, lvl, a, b) by {
        if !(a == x && b == y) {
            assert(t1.chunk_at(lvl, a, b) == t0.chunk_at(lvl, a, b));
        }
    }
    assert forall|t1: QuadNode, cx: int, cy: int, lx: int, ly: int|
        probed(t0, t1, lvl, x, y) && 0 <= lx < 4 && 0 <= ly < 4 implies #[trigger] tile_in(t1, lvl, cx, cy, lx, ly)
        == tile_in(t0, lvl, cx, cy, lx, ly) by {
        if !(cx == x && cy == y) {
            assert(t1.chunk_at(lvl, cx, cy) == t0.chunk_at(lvl, cx, cy));
        } else if let Some(c) = t0.chunk_at(lvl, cx, cy) {
            if t1.chunk_at(lvl, cx, cy) is None {
                assert(c.tile(lx, ly) == Tile::Empty);
            }
        }
    }
}

/// The board: a quad tree of chunks that grows as tiles are written farther
/// from the origin. Tile (x, y) lies in the chunk at chunk coordinates
/// (x / CHUNK_SIZE + off_x, y / CHUNK_SIZE + off_y) of the tree.
pub struct GameMap {
    off_x: usize,
    off_y: usize,
    lvl: Level,
    quad_tree: QuadNode,
}

impl GameMap {
    /// The tree has its shape, and the offsets place the reach of writes
    /// inside what the tree can grow to.
    pub closed spec fn wf(self) -> bool {
        &&& self.lvl + 3 <= usize::BITS
        &&& self.quad_tree.wf(self.lvl as nat)
        &&& off_ok(self.off_x as int, (self.lvl + 1) as nat)
        &&& off_ok(self.off_y as int, (self.lvl + 1) as nat)
        &&& self.lvl + 1 >= usize::BITS - 3 ==> (self.off_x > chunk_bound() || self.off_y > chunk_bound())
        &&& self.lvl + 1 == usize::BITS - 2 ==> (self.off_x > chunk_bound() && self.off_y > chunk_bound())
    }

    /// The tile at (x, y) of the board.
    pub closed spec fn tile(self, x: int, y: int) -> Tile {
        tile_in(self.quad_tree, self.lvl as nat, x / 4 + self.off_x, y / 4 + self.off_y, x % 4, y % 4)
    }

    /// An empty board.
    pub fn new() -> (m: GameMap)
        ensures
            m.wf(),
            forall|x: int, y: int| #[trigger] m.tile(x, y) == Tile::Empty,
    {
        let t = QuadNode::new();
        proof {
            lemma_level_powers(1);
            assert(t.wf(0));
        }
        let m = GameMap { off_x: 0, off_y: 0, lvl: 0, quad_tree: t };
        proof {
            assert forall|x: int, y: int| #[trigger] m.tile(x, y) == Tile::Empty by {
                lemma_no_children_no_chunks(t, 0, x / 4, y / 4);
            }
        }
        m
    }

    /// The chunk at chunk coordinates (x, y) of the tree, where it is stored
    /// and holds a stone; on the way down, what holds nothing is dropped.
    fn get_chunk(&mut self, x: usize, y: usize) -> (r: Option<&Chunk>)
        requires
            old(self).wf(),
        ensures
            final(self).wf(),
            final(self).lvl == old(self).lvl,
            final(self).off_x == old(self).off_x,
            final(self).off_y == old(self).off_y,
            forall|a: int, b: int| #[trigger] live_at(final(self).quad_tree, final(self).lvl as nat, a, b) == live_at(
                old(self).quad_tree,
                old(self).lvl as nat,
                a,
                b,
            ),
            forall|x2: int, y2: int| #[trigger] final(self).tile(x2, y2) == old(self).tile(x2, y2),
            probed(old(self).quad_tree, final(self).quad_tree, old(self).lvl as nat, x as int, y as int),
            final(self).quad_tree.chunk_at(old(self).lvl as nat, x as int, y as int) == live_chunk(
                old(self).quad_tree,
                old(self).lvl as nat,
                x as int,
                y as int,
            ),
            final(self).quad_tree.chunk_at(old(self).lvl as nat, x as int, y as int) is Some ==> live_at(
                final(self).quad_tree,
                old(self).lvl as nat,
                x as int,
                y as int,
            ),
            match r {
                Some(c) => old(self).quad_tree.chunk_at(old(self).lvl as nat, x as int, y as int) == Some(*c)
                    && !c.all_empty(),
                None => !live_at(old(self).quad_tree, old(self).lvl as nat, x as int, y as int),
            },
    {
        proof {
            lemma_level_powers((self.lvl + 1) as nat);
            lemma_span(self.lvl as nat);
            lemma_usize_pow2_no_overflow((self.lvl + 1) as nat);
            lemma_usize_shl_is_mul(1, (self.lvl + 1) as usize);
        }
        let max_pos: usize = 1usize << (((self.lvl + 1) * NODE_LOG_SIZE) as usize);
        if x >= max_pos || y >= max_pos {
            proof {
                lemma_outside_no_chunk(self.quad_tree, self.lvl as nat, x as int, y as int);
            }
            return None;
        }
        proof {
            lemma_probe_keeps(self.quad_tree, self.lvl as nat, x as int, y as int);
        }
        match self.quad_tree.try_get_chunk(x, y, self.lvl) {
            Err(()) => None,
            Ok(chunk) => Some(chunk),
        }
    }

    /// The tile at (x, y); what holds nothing in its chunk's path is dropped.
    pub fn get_tile(&mut self, x: i64, y: i64) -> (t: Tile)
        requires
            old(self).wf(),
        ensures
            final(self).wf(),
            t == old(self).tile(x as int, y as int),
            forall|x2: int, y2: int| #[trigger] final(self).tile(x2, y2) == old(self).tile(x2, y2),
    {
        proof {
            lemma_level_powers((self.lvl + 1) as nat);
            lemma_coords(x);
            lemma_coords(y);
            lemma_span(self.lvl as nat);
            assert(-0x2000_0000_0000_0000 <= x as int / 4 < 0x2000_0000_0000_0000) by (nonlinear_arith)
                requires
                    i64::MIN <= x <= i64::MAX,
            ;
            assert(-0x2000_0000_0000_0000 <= y as int / 4 < 0x2000_0000_0000_0000) by (nonlinear_arith)
                requires
                    i64::MIN <= y <= i64::MAX,
            ;
        }
        let chk_x = (x >> CHUNK_LOG_SIZE) + self.off_x as i64;
        let chk_y = (y >> CHUNK_LOG_SIZE) + self.off_y as i64;
        let side = (2 * pow2_usize(self.lvl)) as i64;
        if chk_x < 0 || chk_y < 0 || chk_x >= side || chk_y >= side {
            proof {
                lemma_outside_no_chunk(self.quad_tree, self.lvl as nat, chk_x as int, chk_y as int);
            }
            return Tile::Empty;
        }
        let ghost t0 = self.quad_tree;
        let ghost l = self.lvl as nat;
        match self.get_chunk(chk_x as usize, chk_y as usize) {
            None => {
                proof {
                    if let Some(c) = t0.chunk_at(l, chk_x as int, chk_y as int) {
                        assert(c.tile(x as int % 4, y as int % 4) == Tile::Empty);
                    }
                }
                Tile::Empty
            },
            Some(chunk) => chunk.get_tile((x as usize) & (CHUNK_SIZE - 1), (y as usize) & (CHUNK_SIZE - 1)),
        }
    }

    /// Writes `tile` at (x, y), growing the tree where (x, y) lies outside it.
    pub fn set_tile(&mut self, x: i64, y: i64, tile: Tile)
        requires
            old(self).wf(),
            -reach() <= x < reach(),
            -reach() <= y < reach(),
        ensures
            final(self).wf(),
            forall|x2: int, y2: int| #[trigger] final(self).tile(x2, y2) == if x2 == x && y2 == y {
                tile
            } else {
                old(self).tile(x2, y2)
            },
    {
        proof {
            lemma_level_powers((self.lvl + 1) as nat);
            lemma_coords(x);
            lemma_coords(y);
        }
        let ghost t0 = self.quad_tree;
        let ghost l0 = self.lvl as nat;
        let ghost ox0 = self.off_x as int;
        let ghost oy0 = self.off_y as int;
        let ghost tx = x / 4;
        let ghost ty = y / 4;
        let mut chk_x = (x >> CHUNK_LOG_SIZE) + self.off_x as i64;
        let mut chk_y = (y >> CHUNK_LOG_SIZE) + self.off_y as i64;
        loop
            invariant
                self.wf(),
                -chunk_bound() <= tx < chunk_bound(),
                -chunk_bound() <= ty < chunk_bound(),
                chk_x == tx + self.off_x,
                chk_y == ty + self.off_y,
                forall|cx: int, cy: int|
                    #[trigger] self.quad_tree.chunk_at(self.lvl as nat, cx + self.off_x, cy + self.off_y)
                        == t0.chunk_at(l0, cx + ox0, cy + oy0),
            ensures
                self.wf(),
                chk_x == tx + self.off_x,
                chk_y == ty + self.off_y,
                0 <= chk_x < pow2((self.lvl + 1) as nat),
                0 <= chk_y < pow2((self.lvl + 1) as nat),
                forall|cx: int, cy: int|
                    #[trigger] self.quad_tree.chunk_at(self.lvl as nat, cx + self.off_x, cy + self.off_y)
                        == t0.chunk_at(l0, cx + ox0, cy + oy0),
            decreases usize::BITS - 3 - self.lvl,
        {
            let ghost l = (self.lvl + 1) as nat;
            proof {
                lemma_level_powers(l);
                lemma_usize_pow2_no_overflow(l);
                lemma_usize_shl_is_mul(1, (self.lvl + 1) as usize);
            }
            let max_pos: usize = 1usize << (((self.lvl + 1) * NODE_LOG_SIZE) as usize);
            if 0 <= chk_x && chk_x < max_pos as i64 && 0 <= chk_y && chk_y < max_pos as i64 {
                break ;
            }
            proof {
                if l == usize::BITS - 2 {
                    assert(pow2(l) == 8 * chunk_bound());
                    assert(pow2((l - 1) as nat) == 4 * chunk_bound());
                    assert(false);
                }
                lemma_level_powers(l + 1);
                lemma_span(self.lvl as nat);
                lemma_span((self.lvl + 1) as nat);
            }
            let wrap_x = if chk_x < 0 {
                NODE_SIZE - 1
            } else {
                0
            };
            let wrap_y = if chk_y < 0 {
                NODE_SIZE - 1
            } else {
                0
            };
            let mut old_tree = QuadNode::new();
            std::mem::swap(&mut old_tree, &mut self.quad_tree);
            let ghost old_tree_g = old_tree;
            let ghost ox = self.off_x as int;
            let ghost oy = self.off_y as int;
            self.quad_tree.chd[wrap_x][wrap_y] = QuadChd::Node(Box::new(old_tree));
            self.quad_tree.use_cnt += 1;
            proof {
                lemma_grow(old_tree_g, self.quad_tree, self.lvl as nat, wrap_x as int, wrap_y as int);
            }
            let shift_x = max_pos * wrap_x;
            let shift_y = max_pos * wrap_y;
            proof {
                assert(shift_x == wrap_x * pow2(l)) by (nonlinear_arith)
                    requires
                        shift_x == max_pos * wrap_x,
                        max_pos == pow2(l),
                ;
                assert(shift_y == wrap_y * pow2(l)) by (nonlinear_arith)
                    requires
                        shift_y == max_pos * wrap_y,
                        max_pos == pow2(l),
                ;
                assert(wrap_x == 0 || wrap_x == 1);
                assert(shift_x == 0 || shift_x == pow2(l));
                assert(shift_y == 0 || shift_y == pow2(l));
                assert forall|cx: int, cy: int|
                    #[trigger] self.quad_tree.chunk_at(l, cx + (ox + shift_x), cy + (oy + shift_y)) == t0.chunk_at(
                        l0,
                        cx + ox0,
                        cy + oy0,
                    ) by {
                    assert(self.quad_tree.chunk_at(l, (cx + ox) + wrap_x * span(l), (cy + oy) + wrap_y * span(l))
                        == old_tree_g.chunk_at((l - 1) as nat, cx + ox, cy + oy));
                }
            }
            self.off_x = self.off_x + shift_x;
            self.off_y = self.off_y + shift_y;
            chk_x = chk_x + shift_x as i64;
            chk_y = chk_y + shift_y as i64;
            self.lvl = self.lvl + 1;
        }
        let ghost mid = *self;
        proof {
            lemma_level_powers((self.lvl + 1) as nat);
            lemma_span(self.lvl as nat);
            assert forall|x2: int, y2: int| #[trigger] mid.tile(x2, y2) == old(self).tile(x2, y2) by {
                assert(mid.quad_tree.chunk_at(mid.lvl as nat, x2 / 4 + mid.off_x, y2 / 4 + mid.off_y) == t0.chunk_at(
                    l0,
                    x2 / 4 + ox0,
                    y2 / 4 + oy0,
                ));
            }
        }
        let chunk = self.quad_tree.get_chunk_mut(chk_x as usize, chk_y as usize, self.lvl);
        chunk.set_tile((x as usize) & (CHUNK_SIZE - 1), (y as usize) & (CHUNK_SIZE - 1), tile);
        proof {
            assert forall|x2: int, y2: int| #[trigger] self.tile(x2, y2) == if x2 == x && y2 == y {
                tile
            } else {
                old(self).tile(x2, y2)
            } by {
                assert(mid.tile(x2, y2) == old(self).tile(x2, y2));
                if x2 / 4 == x / 4 && y2 / 4 == y / 4 {
                    if !(x2 == x && y2 == y) {
                        assert(x2 % 4 != x % 4 || y2 % 4 != y % 4);
                    }
                }
            }
        }
    }

    /// The rows `r.0 .. r.1` and columns `r.2 .. r.3` that the text view of
    /// the board shows: the tree's square, from its corner.
    pub fn display_bounds(&self) -> (r: (i64, i64, i64, i64))
        requires
            self.wf(),
            self.size_log() + 2 < 63,
        ensures
            r.0 == -4 * self.offsets().0,
            r.1 == pow2(self.size_log() + 2) + r.0,
            r.2 == -4 * self.offsets().1,
            r.3 == pow2(self.size_log() + 2) + r.2,
    {
        let ghost l = (self.lvl + 1) as nat;
        proof {
            lemma_level_powers(l);
            lemma_pow2_pos(l);
            lemma_usize_pow2_no_overflow(l);
            vstd::arithmetic::power2::lemma2_to64();
            vstd::arithmetic::power2::lemma_pow2_adds(l, 2);
            vstd::arithmetic::power2::lemma_pow2_strictly_increases(l + 2, 63);
            vstd::arithmetic::power2::lemma2_to64_rest();
            assert(self.off_x * 4 < pow2(l + 2)) by (nonlinear_arith)
                requires
                    self.off_x < pow2(l),
                    pow2(l + 2) == pow2(l) * pow2(2),
                    pow2(2) == 4,
            ;
            assert(self.off_y * 4 < pow2(l + 2)) by (nonlinear_arith)
                requires
                    self.off_y < pow2(l),
                    pow2(l + 2) == pow2(l) * pow2(2),
                    pow2(2) == 4,
            ;
            vstd::bits::lemma_u64_pow2_no_overflow(l + 2);
            vstd::bits::lemma_u64_shl_is_mul(1, (l + 2) as u64);
        }
        let max_pos: i64 = (1u64 << (CHUNK_LOG_SIZE + (self.lvl + 1) * NODE_LOG_SIZE)) as i64;
        let min_x = 0i64 - (CHUNK_SIZE * self.off_x) as i64;
        let min_y = 0i64 - (CHUNK_SIZE * self.off_y) as i64;
        (min_x, max_pos + min_x, min_y, max_pos + min_y)
    }

    /// The offsets of the board's origin in the tree, in chunks.
    pub closed spec fn offsets(self) -> (int, int) {
        (self.off_x as int, self.off_y as int)
    }

    /// The level of the tree.
    pub fn level(&self) -> (r: u64)
        ensures
            r + 1 == self.size_log(),
    {
        self.lvl
    }

    /// The base-2 logarithm of the side of the tree's square, in chunks.
    pub closed spec fn size_log(self) -> nat {
        (self.lvl + 1) as nat
    }

    /// The tile at (x, y), read without dropping anything from the tree.
    pub fn tile_view(&self, x: i64, y: i64) -> (t: Tile)
        requires
            self.wf(),
        ensures
            t == self.tile(x as int, y as int),
    {
        proof {
            lemma_level_powers((self.lvl + 1) as nat);
            lemma_coords(x);
            lemma_coords(y);
            lemma_span(self.lvl as nat);
            assert(-0x2000_0000_0000_0000 <= x as int / 4 < 0x2000_0000_0000_0000) by (nonlinear_arith)
                requires
                    i64::MIN <= x <= i64::MAX,
            ;
            assert(-0x2000_0000_0000_0000 <= y as int / 4 < 0x2000_0000_0000_0000) by (nonlinear_arith)
                requires
                    i64::MIN <= y <= i64::MAX,
            ;
        }
        let chk_x = (x >> CHUNK_LOG_SIZE) + self.off_x as i64;
        let chk_y = (y >> CHUNK_LOG_SIZE) + self.off_y as i64;
        let ghost l = self.lvl as nat;
        let side = (2 * pow2_usize(self.lvl)) as i64;
        if chk_x < 0 || chk_y < 0 || chk_x >= side || chk_y >= side {
            proof {
                lemma_outside_no_chunk(self.quad_tree, l, chk_x as int, chk_y as int);
            }
            return Tile::Empty;
        }
        match self.quad_tree.try_get_chunk_const(chk_x as usize, chk_y as usize, self.lvl) {
            Err(()) => Tile::Empty,
            Ok(chunk) => chunk.get_tile((x as usize) & (CHUNK_SIZE - 1), (y as usize) & (CHUNK_SIZE - 1)),
        }
    }

    /// Hands `checker` the lines of the board, chunk by chunk; a check stops
    /// at the first `Err`.
    fn run_line_check<T: LineChecker>(&mut self, checker: &mut T) -> (r: CheckResult)
        requires
            old(self).wf(),
            old(self).quad_tree.no_chunks(old(self).lvl as nat),
        ensures
            *final(self) == *old(self),
            *final(checker) == *old(checker),
            r == Ok::<(), ()>(()),
    {
        let leaves = match self.quad_tree.run_line_check(checker, self.lvl) {
            Ok(v) => v,
            Err(e) => {
                return Err(e);
            },
        };
        let mut k: usize = 0;
        while k < leaves.len()
            invariant
                leaves@.len() == 0,
                *self == *old(self),
                *checker == *old(checker),
            decreases leaves@.len() - k,
        {
            let (x, y) = leaves[k];
            self.check_border(checker, x, y)?;
            k += 1;
        }
        Ok(())
    }

    /// Checks the lines around the border chunk at (x, y) of the tree, after
    /// dropping what holds nothing among it and its eight neighbours; a
    /// neighbour at coordinate 0 or past the tree counts as missing.
    fn check_border<T: LineChecker>(&mut self, checker: &mut T, x: usize, y: usize) -> (r: CheckResult)
        requires
            old(self).wf(),
            1 <= x,
            1 <= y,
            x + 1 < 2 * span(old(self).lvl as nat),
            y + 1 < 2 * span(old(self).lvl as nat),
            forall|i: int, j: int|
                0 <= i < 3 && 0 <= j < 3 && #[trigger] seen(*old(self), x + i - 1, y + j - 1) ==> {
                    ||| i == 0 && seen(*old(self), x - 1, y as int)
                    ||| j == 0 && seen(*old(self), x as int, y - 1)
                    ||| i == 0 && j == 0 && seen(*old(self), x - 1, y - 1)
                },
        ensures
            final(self).wf(),
            final(self).lvl == old(self).lvl,
            final(self).off_x == old(self).off_x,
            final(self).off_y == old(self).off_y,
            forall|a: int, b: int| #[trigger] final(self).tile(a, b) == old(self).tile(a, b),
            forall|a: int, b: int| #[trigger] live_at(final(self).quad_tree, final(self).lvl as nat, a, b) == live_at(
                old(self).quad_tree,
                old(self).lvl as nat,
                a,
                b,
            ),
            forall|a: int, b: int| #[trigger]
                final(self).quad_tree.chunk_at(old(self).lvl as nat, a, b) == if in_block(x as int, y as int, a, b) {
                    live_chunk(old(self).quad_tree, old(self).lvl as nat, a, b)
                } else {
                    old(self).quad_tree.chunk_at(old(self).lvl as nat, a, b)
                },
            (*final(checker), r is Err) == run_checker(*old(checker), border_lines(*old(self), x as int, y as int)),
    {
        let ghost m0 = *self;
        let mut i: usize = 0;
        while i < 3
            invariant
                0 <= i <= 3,
                self.wf(),
                self.lvl == m0.lvl,
                self.off_x == m0.off_x,
                self.off_y == m0.off_y,
                1 <= x,
                1 <= y,
                x + 1 < 2 * span(self.lvl as nat),
                y + 1 < 2 * span(self.lvl as nat),
                forall|a: int, b: int| #[trigger] self.tile(a, b) == m0.tile(a, b),
                forall|a: int, b: int| #[trigger] live_at(self.quad_tree, self.lvl as nat, a, b) == live_at(
                    m0.quad_tree,
                    self.lvl as nat,
                    a,
                    b,
                ),
                forall|a: int, b: int|
                    live_at(m0.quad_tree, m0.lvl as nat, a, b) || !in_block(x as int, y as int, a, b)
                        ==> #[trigger] self.quad_tree.chunk_at(m0.lvl as nat, a, b) == m0.quad_tree.chunk_at(
                        m0.lvl as nat,
                        a,
                        b,
                    ),
                forall|a: int, b: int| #[trigger]
                    self.quad_tree.chunk_at(m0.lvl as nat, a, b) == if in_block(x as int, y as int, a, b) && (a - (x - 1) < i) {
                        live_chunk(m0.quad_tree, m0.lvl as nat, a, b)
                    } else {
                        m0.quad_tree.chunk_at(m0.lvl as nat, a, b)
                    },
                forall|ii: int, jj: int|
                    0 <= ii < i && 0 <= jj < 3 && (#[trigger] self.quad_tree.chunk_at(
                        self.lvl as nat,
                        x + ii - 1,
                        y + jj - 1,
                    )) is Some ==> live_at(self.quad_tree, self.lvl as nat, x + ii - 1, y + jj - 1),
            decreases 3 - i,
        {
            let mut j: usize = 0;
            while j < 3
                invariant
                    0 <= i < 3,
                    0 <= j <= 3,
                    self.wf(),
                    self.lvl == m0.lvl,
                    self.off_x == m0.off_x,
                    self.off_y == m0.off_y,
                    1 <= x,
                    1 <= y,
                    x + 1 < 2 * span(self.lvl as nat),
                    y + 1 < 2 * span(self.lvl as nat),
                    forall|a: int, b: int| #[trigger] self.tile(a, b) == m0.tile(a, b),
                    forall|a: int, b: int| #[trigger] live_at(self.quad_tree, self.lvl as nat, a, b) == live_at(
                        m0.quad_tree,
                        self.lvl as nat,
                        a,
                        b,
                    ),
                    forall|a: int, b: int|
                        live_at(m0.quad_tree, m0.lvl as nat, a, b) || !in_block(x as int, y as int, a, b)
                            ==> #[trigger] self.quad_tree.chunk_at(m0.lvl as nat, a, b) == m0.quad_tree.chunk_at(
                            m0.lvl as nat,
                            a,
                            b,
                        ),
                    forall|a: int, b: int| #[trigger]
                        self.quad_tree.chunk_at(m0.lvl as nat, a, b) == if in_block(x as int, y as int, a, b) && (a - (x - 1) < i || (a - (x - 1) == i && b - (y - 1) < j)) {
                            live_chunk(m0.quad_tree, m0.lvl as nat, a, b)
                        } else {
                            m0.quad_tree.chunk_at(m0.lvl as nat, a, b)
                        },
                    forall|ii: int, jj: int|
                        0 <= ii < 3 && 0 <= jj < 3 && (ii < i || (ii == i && jj < j)) && (#[trigger] self.quad_tree.chunk_at(
                            self.lvl as nat,
                            x + ii - 1,
                            y + jj - 1,
                        )) is Some ==> live_at(self.quad_tree, self.lvl as nat, x + ii - 1, y + jj - 1),
                decreases 3 - j,
            {
                proof {
                    lemma_span(self.lvl as nat);
                }
                let ghost before = self.quad_tree;
                let _ = self.get_chunk(x + i - 1, y + j - 1);
                proof {
                    assert forall|a: int, b: int|
                        live_at(m0.quad_tree, m0.lvl as nat, a, b) || !in_block(x as int, y as int, a, b)
                            implies #[trigger] self.quad_tree.chunk_at(m0.lvl as nat, a, b) == m0.quad_tree.chunk_at(
                            m0.lvl as nat,
                            a,
                            b,
                        ) by {
                        assert(before.chunk_at(m0.lvl as nat, a, b) == m0.quad_tree.chunk_at(m0.lvl as nat, a, b));
                        assert(live_at(before, m0.lvl as nat, a, b) == live_at(m0.quad_tree, m0.lvl as nat, a, b));
                    }
                    assert forall|a: int, b: int| #[trigger]
                        self.quad_tree.chunk_at(m0.lvl as nat, a, b) == if in_block(x as int, y as int, a, b) && (a - (x
                            - 1) < i || (a - (x - 1) == i && b - (y - 1) < j + 1)) {
                            live_chunk(m0.quad_tree, m0.lvl as nat, a, b)
                        } else {
                            m0.quad_tree.chunk_at(m0.lvl as nat, a, b)
                        } by {
                        assert(before.chunk_at(m0.lvl as nat, a, b) == if in_block(x as int, y as int, a, b) && (a - (x
                            - 1) < i || (a - (x - 1) == i && b - (y - 1) < j)) {
                            live_chunk(m0.quad_tree, m0.lvl as nat, a, b)
                        } else {
                            m0.quad_tree.chunk_at(m0.lvl as nat, a, b)
                        });
                        assert(live_at(before, m0.lvl as nat, a, b) == live_at(m0.quad_tree, m0.lvl as nat, a, b));
                    }
                    assert forall|ii: int, jj: int|
                        0 <= ii < 3 && 0 <= jj < 3 && (ii < i || (ii == i && jj < j + 1)) && (#[trigger] self.quad_tree.chunk_at(
                            self.lvl as nat,
                            x + ii - 1,
                            y + jj - 1,
                        )) is Some implies live_at(self.quad_tree, self.lvl as nat, x + ii - 1, y + jj - 1) by {
                        if !(ii == i && jj == j) {
                            assert(before.chunk_at(self.lvl as nat, x + ii - 1, y + jj - 1) is Some);
                        }
                    }
                }
                j += 1;
            }
            i += 1;
        }
        proof {
            lemma_span(self.lvl as nat);
            lemma_usize_pow2_no_overflow((self.lvl + 1) as nat);
            lemma_usize_shl_is_mul(1, (self.lvl + 1) as usize);
        }
        let size: usize = 1usize << ((NODE_LOG_SIZE * (self.lvl + 1)) as usize);
        let mut chunks: [[Option<&Chunk>; 3]; 3] = [[None; 3]; 3];
        let mut i: usize = 0;
        while i < 3
            invariant
                0 <= i <= 3,
                self.wf(),
                self.lvl == m0.lvl,
                1 <= x,
                1 <= y,
                x + 1 < 2 * span(self.lvl as nat),
                y + 1 < 2 * span(self.lvl as nat),
                size == 2 * span(self.lvl as nat),
                forall|a: int, b: int| #[trigger] live_at(self.quad_tree, self.lvl as nat, a, b) == live_at(
                    m0.quad_tree,
                    self.lvl as nat,
                    a,
                    b,
                ),
                forall|a: int, b: int|
                    live_at(m0.quad_tree, m0.lvl as nat, a, b) || !in_block(x as int, y as int, a, b)
                        ==> #[trigger] self.quad_tree.chunk_at(m0.lvl as nat, a, b) == m0.quad_tree.chunk_at(
                        m0.lvl as nat,
                        a,
                        b,
                    ),
                forall|a: int, b: int| #[trigger]
                    self.quad_tree.chunk_at(m0.lvl as nat, a, b) == if in_block(x as int, y as int, a, b) {
                        live_chunk(m0.quad_tree, m0.lvl as nat, a, b)
                    } else {
                        m0.quad_tree.chunk_at(m0.lvl as nat, a, b)
                    },
                forall|ii: int, jj: int|
                    0 <= ii < i && 0 <= jj < 3 ==> deref_chunk(#[trigger] chunks[ii][jj]) == seen_chunk(
                        m0,
                        x + ii - 1,
                        y + jj - 1,
                    ),
                forall|ii: int, jj: int|
                    0 <= ii < 3 && 0 <= jj < 3 && (#[trigger] self.quad_tree.chunk_at(
                        self.lvl as nat,
                        x + ii - 1,
                        y + jj - 1,
                    )) is Some ==> live_at(self.quad_tree, self.lvl as nat, x + ii - 1, y + jj - 1),
            decreases 3 - i,
        {
            let mut row: [Option<&Chunk>; 3] = [None; 3];
            let mut j: usize = 0;
            while j < 3
                invariant
                    0 <= i < 3,
                    0 <= j <= 3,
                    self.wf(),
                    self.lvl == m0.lvl,
                    1 <= x,
                    1 <= y,
                    x + 1 < 2 * span(self.lvl as nat),
                    y + 1 < 2 * span(self.lvl as nat),
                    size == 2 * span(self.lvl as nat),
                    forall|a: int, b: int| #[trigger] live_at(self.quad_tree, self.lvl as nat, a, b) == live_at(
                        m0.quad_tree,
                        self.lvl as nat,
                        a,
                        b,
                    ),
                    forall|a: int, b: int|
                        live_at(m0.quad_tree, m0.lvl as nat, a, b) || !in_block(x as int, y as int, a, b)
                            ==> #[trigger] self.quad_tree.chunk_at(m0.lvl as nat, a, b) == m0.quad_tree.chunk_at(
                            m0.lvl as nat,
                            a,
                            b,
                        ),
                    forall|a: int, b: int| #[trigger]
                        self.quad_tree.chunk_at(m0.lvl as nat, a, b) == if in_block(x as int, y as int, a, b) {
                            live_chunk(m0.quad_tree, m0.lvl as nat, a, b)
                        } else {
                            m0.quad_tree.chunk_at(m0.lvl as nat, a, b)
                        },
                    forall|jj: int| 0 <= jj < j ==> deref_chunk(#[trigger] row[jj]) == seen_chunk(m0, x + i - 1, y + jj - 1),
                    forall|ii: int, jj: int|
                        0 <= ii < 3 && 0 <= jj < 3 && (#[trigger] self.quad_tree.chunk_at(
                            self.lvl as nat,
                            x + ii - 1,
                            y + jj - 1,
                        )) is Some ==> live_at(self.quad_tree, self.lvl as nat, x + ii - 1, y + jj - 1),
                decreases 3 - j,
            {
                let idx = x + i - 1;
                let idy = y + j - 1;
                row[j] = if 0 >= idx || idx >= size || 0 >= idy || idy >= size {
                    None
                } else {
                    match self.quad_tree.try_get_chunk_const(idx, idy, self.lvl) {
                        Ok(c) => {
                            proof {
                                assert(self.quad_tree.chunk_at(self.lvl as nat, x + i - 1, y + j - 1) is Some);
                                assert(live_at(self.quad_tree, self.lvl as nat, idx as int, idy as int));
                                assert(live_at(m0.quad_tree, m0.lvl as nat, idx as int, idy as int));
                            }
                            Some(c)
                        },
                        Err(_) => {
                            proof {
                                assert(!live_at(self.quad_tree, self.lvl as nat, idx as int, idy as int));
                                assert(!live_at(m0.quad_tree, self.lvl as nat, idx as int, idy as int));
                            }
                            None
                        },
                    }
                };
                proof {
                    assert(live_at(self.quad_tree, self.lvl as nat, idx as int, idy as int) == live_at(
                        m0.quad_tree,
                        self.lvl as nat,
                        idx as int,
                        idy as int,
                    ));
                }
                j += 1;
            }
            chunks[i] = row;
            i += 1;
        }
        let neigh = NeighbourChunks { chunks };
        proof {
            assert forall|i: int, j: int|
                0 <= i < 3 && 0 <= j < 3 && #[trigger] neigh.chunks[i][j] is Some implies neigh.never_read(i, j) by {
                assert(deref_chunk(neigh.chunks[i][j]) == seen_chunk(m0, x + i - 1, y + j - 1));
                assert(deref_chunk(neigh.chunks[0][1]) == seen_chunk(m0, x + 0 - 1, y + 1 - 1));
                assert(deref_chunk(neigh.chunks[1][0]) == seen_chunk(m0, x + 1 - 1, y + 0 - 1));
                assert(deref_chunk(neigh.chunks[0][0]) == seen_chunk(m0, x + 0 - 1, y + 0 - 1));
            }
            assert(deref_chunk(neigh.chunks[0][1]) == seen_chunk(m0, x + 0 - 1, y + 1 - 1));
            assert(deref_chunk(neigh.chunks[1][0]) == seen_chunk(m0, x + 1 - 1, y + 0 - 1));
            assert(deref_chunk(neigh.chunks[0][0]) == seen_chunk(m0, x + 0 - 1, y + 0 - 1));
            assert forall|a: int, b: int| #[trigger] neigh.tiles()(a, b) == border_tiles(m0, x as int, y as int)(a, b) by {
                let p = pick(a).0;
                let q = pick(b).0;
                assert(0 <= p < 3 && 0 <= q < 3);
                assert(deref_chunk(neigh.chunks[p][q]) == seen_chunk(m0, x + p - 1, y + q - 1));
            }
            assert(neigh.tiles() =~= border_tiles(m0, x as int, y as int));
            assert(neigh.scan_lines() == border_lines(m0, x as int, y as int));
        }
        neigh.run_line_check(checker)
    }
}

/// The chunk at (x, y) of the board's tree where it is `seen`.
spec fn seen_chunk(m: GameMap, x: int, y: int) -> Option<Chunk> {
    if seen(m, x, y) {
        m.quad_tree.chunk_at(m.lvl as nat, x, y)
    } else {
        None
    }
}

/// The tiles around the border chunk at (x, y) of the board's tree, counted
/// from the corner of that chunk, as a check around it reads them: only the
/// `seen` chunks are read, the others count as empty.
spec fn border_tiles(m: GameMap, x: int, y: int) -> spec_fn(int, int) -> Tile {
    |a: int, b: int|
        match seen_chunk(m, x + pick(a).0 - 1, y + pick(b).0 - 1) {
            None => Tile::Empty,
            Some(c) => c.tile(a, b),
        }
}

/// The lines that a check around the border chunk at (x, y) of the board's
/// tree hands its checker, in order.
spec fn border_lines(m: GameMap, x: int, y: int) -> Seq<Seq<Tile>> {
    scan_around(seen(m, x - 1, y), seen(m, x, y - 1), seen(m, x - 1, y - 1), border_tiles(m, x, y))
}

/// The chunk at chunk coordinates (x, y) of the board's tree lies strictly
/// inside the tree's square, is stored and holds a stone.
spec fn seen(m: GameMap, x: int, y: int) -> bool {
    0 < x < 2 * span(m.lvl as nat) && 0 < y < 2 * span(m.lvl as nat) && live_at(m.quad_tree, m.lvl as nat, x, y)
}

/// 2 to the power `l`, for a level of the tree.
fn pow2_usize(l: Level) -> (r: usize)
    requires
        l + 2 <= usize::BITS,
    ensures
        r == span(l as nat),
        2 * r < usize::MAX,
{
    proof {
        lemma_span(l as nat);
        lemma_usize_pow2_no_overflow(l as nat);
        lemma_usize_shl_is_mul(1, l as usize);
    }
    1usize << (l as usize)
}

} // verus!
