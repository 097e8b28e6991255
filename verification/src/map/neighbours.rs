use vstd::prelude::*;
use crate::map::chunk::{Chunk, CHUNK_SIZE};
use crate::map::tile::Tile;

verus! {

/// Which of three chunks side by side coordinate `x` falls in (0, 1 or 2,
/// for x below 0, within the middle chunk, or past it), and the coordinate
/// inside that chunk.
pub open spec fn split_coord(x: int) -> (int, int) {
    if x < 0 {
        (0, x + CHUNK_SIZE)
    } else if x >= CHUNK_SIZE {
        (2, x - CHUNK_SIZE)
    } else {
        (1, x)
    }
}

/// The cells of row `x` from column `start` up to the end of the middle chunk.
pub open spec fn row_cells(x: int, start: int) -> Seq<(i64, i64)> {
    Seq::new((CHUNK_SIZE - start) as nat, |j: int| (x as i64, (start + j) as i64))
}

/// The rows `first` .. `end` of a square of cells whose row x starts at
/// column `start(x)`, row by row.
pub open spec fn rows_between(first: int, end: int, start: spec_fn(int) -> int) -> Seq<(i64, i64)>
    decreases end - first,
{
    if end <= first {
        Seq::empty()
    } else {
        rows_between(first, end - 1, start) + row_cells(end - 1, start(end - 1))
    }
}

/// The cells from `-extra` to the end of the middle chunk in both
/// coordinates, row by row.
pub open spec fn all_cells(extra: int) -> Seq<(i64, i64)> {
    rows_between(-extra, CHUNK_SIZE as int, |x: int| -extra)
}

/// The cells of rows `first` .. `end` lie in those rows, from column `lo` on
/// up to the end of the middle chunk, when every row starts at `lo` or later.
pub proof fn lemma_rows_in_range(first: int, end: int, start: spec_fn(int) -> int, lo: int)
    requires
        forall|x: int| first <= x < end ==> lo <= #[trigger] start(x) <= CHUNK_SIZE,
        -0x1000 <= first,
        end <= CHUNK_SIZE,
        -0x1000 <= lo,
    ensures
        forall|k: int|
            0 <= k < rows_between(first, end, start).len() ==> first <= (#[trigger] rows_between(first, end, start)[k]).0 < end
                && lo <= rows_between(first, end, start)[k].1 < CHUNK_SIZE,
    decreases end - first,
{
    if end > first {
        lemma_rows_in_range(first, end - 1, start, lo);
        let a = rows_between(first, end - 1, start);
        let r = row_cells(end - 1, start(end - 1));
        assert forall|k: int| 0 <= k < (a + r).len() implies first <= (#[trigger] (a + r)[k]).0 < end && lo <= (a
            + r)[k].1 < CHUNK_SIZE by {
            if k >= a.len() {
                assert((a + r)[k] == r[k - a.len()]);
            } else {
                assert((a + r)[k] == a[k]);
            }
        }
    }
}

/// A chunk and its eight neighbours; `chunks[1][1]` is the middle one, and
/// a missing chunk holds only empty tiles.
pub struct Neighbours<'a> {
    pub chunks: [[Option<&'a Chunk>; 3]; 3],
}

impl<'a> Neighbours<'a> {
    /// The tile at (x, y), counted from the corner of the middle chunk.
    pub open spec fn tile_at(self, x: int, y: int) -> Tile {
        let (ix, lx) = split_coord(x);
        let (iy, ly) = split_coord(y);
        match self.chunks[ix][iy] {
            Some(c) => c.tile(lx, ly),
            None => Tile::Empty,
        }
    }

    /// The column where row `x` of the owned cells starts.
    pub open spec fn owned_start(self, extra: int, x: int) -> int {
        if x < 0 && self.chunks[0][0] is Some {
            0
        } else if self.chunks[1][0] is Some {
            0
        } else {
            -extra
        }
    }

    /// The row where the owned cells start.
    pub open spec fn owned_first(self, extra: int) -> int {
        if self.chunks[0][1] is Some {
            0
        } else {
            -extra
        }
    }

    /// The cells that the middle chunk owns when the measure looks `extra`
    /// tiles around each tile: its own, and those up to `extra` before it
    /// where no neighbour chunk owns them.
    pub open spec fn owned_cells(self, extra: int) -> Seq<(i64, i64)> {
        rows_between(self.owned_first(extra), CHUNK_SIZE as int, |x: int| self.owned_start(extra, x))
    }

    pub fn get_tile(&self, x: i64, y: i64) -> (t: Tile)
        requires
            -(CHUNK_SIZE as int) <= x < 2 * CHUNK_SIZE,
            -(CHUNK_SIZE as int) <= y < 2 * CHUNK_SIZE,
        ensures
            t == self.tile_at(x as int, y as int),
    {
        let mut x = x;
        let mut y = y;
        let mut idx: usize = 1;
        let mut idy: usize = 1;
        if x < 0 {
            idx -= 1;
            x += CHUNK_SIZE as i64;
        } else if x >= CHUNK_SIZE as i64 {
            idx += 1;
            x -= CHUNK_SIZE as i64;
        }
        if y < 0 {
            idy -= 1;
            y += CHUNK_SIZE as i64;
        } else if y >= CHUNK_SIZE as i64 {
            idy += 1;
            y -= CHUNK_SIZE as i64;
        }
        match &self.chunks[idx][idy] {
            None => Tile::Empty,
            Some(chunk) => chunk.get_tile(x as usize, y as usize),
        }
    }

    /// The cells from `-extra` to the end of the middle chunk in both
    /// coordinates, row by row.
    pub fn on_all_tiles(&self, extra: i64) -> (r: Vec<(i64, i64)>)
        requires
            0 <= extra < CHUNK_SIZE,
        ensures
            r@ == all_cells(extra as int),
    {
        let ghost start = |x: int| -extra;
        let mut r: Vec<(i64, i64)> = Vec::new();
        let mut x: i64 = -extra;
        while x < CHUNK_SIZE as i64
            invariant
                0 <= extra < CHUNK_SIZE,
                -extra <= x <= CHUNK_SIZE,
                start == (|x: int| -extra),
                r@ == rows_between(-extra, x as int, start),
            decreases CHUNK_SIZE - x,
        {
            let ghost before = r@;
            let mut y: i64 = -extra;
            while y < CHUNK_SIZE as i64
                invariant
                    0 <= extra < CHUNK_SIZE,
                    -extra <= x < CHUNK_SIZE,
                    -extra <= y <= CHUNK_SIZE,
                    r@ == before + row_cells(x as int, -extra).subrange(0, y + extra),
                decreases CHUNK_SIZE - y,
            {
                r.push((x, y));
                y += 1;
                proof {
                    assert(r@ =~= before + row_cells(x as int, -extra).subrange(0, y + extra));
                }
            }
            proof {
                assert(row_cells(x as int, -extra).subrange(0, CHUNK_SIZE + extra) =~= row_cells(x as int, -extra));
                assert(rows_between(-extra, x + 1, start) == rows_between(-extra, x as int, start) + row_cells(
                    x as int,
                    start(x as int),
                ));
            }
            x += 1;
        }
        r
    }

    /// The cells that the middle chunk owns, row by row (see `owned_cells`).
    pub fn on_owned_tiles(&self, extra: i64) -> (r: Vec<(i64, i64)>)
        requires
            0 <= extra < CHUNK_SIZE,
        ensures
            r@ == self.owned_cells(extra as int),
    {
        let ghost start = |x: int| self.owned_start(extra as int, x);
        let min_x: i64 = if self.chunks[0][1].is_some() {
            0
        } else {
            -extra
        };
        let min_y: i64 = if self.chunks[1][0].is_some() {
            0
        } else {
            -extra
        };
        let mut r: Vec<(i64, i64)> = Vec::new();
        let mut x: i64 = min_x;
        while x < CHUNK_SIZE as i64
            invariant
                0 <= extra < CHUNK_SIZE,
                min_x == self.owned_first(extra as int),
                min_y == (if self.chunks[1][0] is Some { 0 } else { -extra }),
                min_x <= x <= CHUNK_SIZE,
                start == (|x: int| self.owned_start(extra as int, x)),
                r@ == rows_between(min_x as int, x as int, start),
            decreases CHUNK_SIZE - x,
        {
            let ghost before = r@;
            let start_y = if x < 0 && self.chunks[0][0].is_some() {
                0
            } else {
                min_y
            };
            let mut y: i64 = start_y;
            while y < CHUNK_SIZE as i64
                invariant
                    min_x <= x < CHUNK_SIZE,
                    -(CHUNK_SIZE as int) < start_y <= 0,
                    start_y <= y <= CHUNK_SIZE,
                    r@ == before + row_cells(x as int, start_y as int).subrange(0, y - start_y),
                decreases CHUNK_SIZE - y,
            {
                r.push((x, y));
                y += 1;
                proof {
                    assert(r@ =~= before + row_cells(x as int, start_y as int).subrange(0, y - start_y));
                }
            }
            proof {
                assert(start(x as int) == start_y);
                assert(row_cells(x as int, start_y as int).subrange(0, CHUNK_SIZE - start_y) =~= row_cells(
                    x as int,
                    start_y as int,
                ));
                assert(rows_between(min_x as int, x + 1, start) == rows_between(min_x as int, x as int, start)
                    + row_cells(x as int, start(x as int)));
            }
            x += 1;
        }
        r
    }
}

} // verus!
