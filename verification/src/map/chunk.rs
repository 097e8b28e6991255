use vstd::prelude::*;
use crate::map::params::CHUNK_LOG_SIZE;
use crate::map::tile::{Tile, TILE_BITS, tile_code, tile_of_code};

verus! {

/// Side of a chunk, in tiles.
pub const CHUNK_SIZE: usize = 8;

/// Byte size of one storage word of a chunk.
pub const CHUNK_DATA_BYTES: usize = 8;

/// Number of tiles that one storage word holds.
pub const DATA_ENTRIES: usize = (CHUNK_DATA_BYTES + 1) / TILE_BITS;

/// Number of storage words of a chunk.
pub const DATA_LEN: usize = (CHUNK_SIZE * CHUNK_SIZE + DATA_ENTRIES - 1) / DATA_ENTRIES;

/// Number of tiles of a chunk.
pub open spec fn chunk_tiles() -> int {
    CHUNK_SIZE * CHUNK_SIZE
}

/// The two-bit field number `e` of a storage word.
pub open spec fn entry(w: u64, e: int) -> u64 {
    (w >> ((2 * e) as u64)) & 3
}

/// The index of tile (x, y) inside a chunk.
pub open spec fn tile_index(x: int, y: int) -> int {
    x + y * CHUNK_SIZE
}

/// The tiles that a write of tile `id` clears besides itself: those stored in
/// the same word, in a lower field.
pub open spec fn cleared_by_write(id: int, j: int) -> bool {
    j != id && j / (DATA_ENTRIES as int) == id / (DATA_ENTRIES as int) && j % (DATA_ENTRIES as int)
        < id % (DATA_ENTRIES as int)
}

/// A square of CHUNK_SIZE x CHUNK_SIZE tiles, packed two bits per tile.
pub struct Chunk {
    data: [u64; DATA_LEN],
}

proof fn lemma_params()
    ensures
        DATA_ENTRIES == 4,
        DATA_LEN == 16,
        CHUNK_SIZE == 1usize << CHUNK_LOG_SIZE,
{
    assert(1usize << 3usize == 8usize) by (bit_vector);
    assert(CHUNK_SIZE * CHUNK_SIZE == 64) by (nonlinear_arith)
        requires
            CHUNK_SIZE == 8,
    ;
    assert((64usize + 4 - 1) / 4 == 16usize);
    assert(DATA_LEN == (CHUNK_SIZE * CHUNK_SIZE + DATA_ENTRIES - 1) / (DATA_ENTRIES as int));
}

/// A word whose fields are all valid tile codes and that uses no bit beyond them.
pub open spec fn word_ok(w: u64) -> bool {
    w < 256 && forall|e: int| 0 <= e < 4 ==> #[trigger] entry(w, e) != 3
}

proof fn lemma_entry_bounds(w: u64, e: u64)
    by (bit_vector)
    requires
        e < 4,
    ensures
        entry(w, e as int) < 4,
{
}

proof fn lemma_word_write(w: u64, k: u64, t: u64, e: u64)
    by (bit_vector)
    requires
        k < 4,
        e < 4,
        t < 3,
        w < 256,
    ensures
        entry((w & (!3u64 << (2 * k))) | (t << (2 * k)), e as int) == (if e == k {
            t
        } else if e < k {
            0
        } else {
            entry(w, e as int)
        }),
        (w & (!3u64 << (2 * k))) | (t << (2 * k)) < 256,
{
}

proof fn lemma_word_zero(w: u64)
    by (bit_vector)
    requires
        w < 256,
    ensures
        w == 0 <==> (entry(w, 0) == 0 && entry(w, 1) == 0 && entry(w, 2) == 0 && entry(w, 3) == 0),
{
}

proof fn lemma_zero_entries(e: u64)
    by (bit_vector)
    requires
        e < 4,
    ensures
        entry(0, e as int) == 0,
{
}

impl View for Chunk {
    type V = Seq<Tile>;

    /// The tiles of the chunk, tile (x, y) at index x + y * CHUNK_SIZE.
    closed spec fn view(&self) -> Seq<Tile> {
        Seq::new(
            chunk_tiles() as nat,
            |i: int| tile_of_code(entry(self.data[i / (DATA_ENTRIES as int)], i % (DATA_ENTRIES as int))),
        )
    }
}

impl Chunk {
    #[verifier::type_invariant]
    spec fn inv(self) -> bool {
        forall|i: int| 0 <= i < DATA_LEN ==> #[trigger] word_ok(self.data[i])
    }

    /// The tile at (x, y) of the chunk.
    pub open spec fn tile(self, x: int, y: int) -> Tile {
        self@[tile_index(x, y)]
    }

    /// Whether every tile of the chunk is empty.
    pub open spec fn all_empty(self) -> bool {
        forall|i: int| 0 <= i < chunk_tiles() ==> #[trigger] self@[i] == Tile::Empty
    }

    pub fn new() -> (c: Chunk)
        ensures
            c.all_empty(),
    {
        let data = [0u64; 16];
        proof {
            lemma_params();
            assert forall|i: int| 0 <= i < DATA_LEN implies #[trigger] word_ok(data[i]) by {
                assert(data[i] == 0);
                assert forall|e: int| 0 <= e < 4 implies #[trigger] entry(data[i], e) != 3 by {
                    lemma_zero_entries(e as u64);
                }
            }
        }
        let c = Chunk { data };
        proof {
            assert forall|i: int| 0 <= i < DATA_LEN implies #[trigger] word_ok(c.data[i]) by {
                assert forall|e: int| 0 <= e < 4 implies #[trigger] entry(c.data[i], e) != 3 by {
                    lemma_zero_entries(e as u64);
                }
            }
            assert forall|i: int| 0 <= i < chunk_tiles() implies #[trigger] c@[i] == Tile::Empty by {
                lemma_zero_entries((i % 4) as u64);
            }
        }
        c
    }

    pub fn get_tile(&self, x: usize, y: usize) -> (t: Tile)
        requires
            x < CHUNK_SIZE,
            y < CHUNK_SIZE,
        ensures
            t == self.tile(x as int, y as int),
    {
        proof {
            use_type_invariant(self);
            lemma_params();
        }
        let id = x + y * CHUNK_SIZE;
        let shift: u64 = ((id % DATA_ENTRIES) * 2) as u64;
        let tile_val = self.data[id / DATA_ENTRIES] >> shift & 3;
        proof {
            let w = self.data[(id / 4) as int];
            assert(word_ok(w));
            assert(tile_val == entry(w, (id % 4) as int));
            lemma_entry_bounds(w, (id % 4) as u64);
        }
        if tile_val == 0 {
            Tile::Empty
        } else if tile_val == 1 {
            Tile::X
        } else {
            Tile::O
        }
    }

    /// Writes `tile` at (x, y). The write also empties the tiles stored in the
    /// same word in lower fields (see `cleared_by_write`).
    pub fn set_tile(&mut self, x: usize, y: usize, tile: Tile)
        requires
            x < CHUNK_SIZE,
            y < CHUNK_SIZE,
        ensures
            final(self)@.len() == chunk_tiles(),
            forall|j: int|
                0 <= j < chunk_tiles() ==> #[trigger] final(self)@[j] == (if j == tile_index(
                    x as int,
                    y as int,
                ) {
                    tile
                } else if cleared_by_write(tile_index(x as int, y as int), j) {
                    Tile::Empty
                } else {
                    old(self)@[j]
                }),
    {
        proof {
            use_type_invariant(&*self);
            lemma_params();
        }
        let id = x + y * CHUNK_SIZE;
        let k: u64 = (id % DATA_ENTRIES) as u64;
        let w = self.data[id / DATA_ENTRIES];
        let t = tile.code();
        let nw = (w & (!(3 as u64) << (k * 2))) | (t << (k * 2));
        proof {
            assert(word_ok(w));
            assert forall|e: int| 0 <= e < 4 implies #[trigger] entry(nw, e) != 3 by {
                lemma_word_write(w, k, t, e as u64);
                assert(entry(w, e) != 3);
            }
            lemma_word_write(w, k, t, 0);
        }
        let ghost old_self = *self;
        self.data[id / DATA_ENTRIES] = nw;
        proof {
            assert forall|j: int| 0 <= j < chunk_tiles() implies #[trigger] self@[j] == (if j
                == tile_index(x as int, y as int) {
                tile
            } else if cleared_by_write(tile_index(x as int, y as int), j) {
                Tile::Empty
            } else {
                old_self@[j]
            }) by {
                if j / 4 == id / 4 {
                    lemma_word_write(w, k, t, (j % 4) as u64);
                }
            }
        }
    }

    pub fn is_empty(&self) -> (r: bool)
        ensures
            r == self.all_empty(),
    {
        proof {
            use_type_invariant(self);
            lemma_params();
        }
        let mut i: usize = 0;
        while i < DATA_LEN
            invariant
                i <= DATA_LEN,
                DATA_LEN == 16,
                forall|k: int| 0 <= k < DATA_LEN ==> #[trigger] word_ok(self.data[k]),
                forall|k: int| 0 <= k < i ==> self.data[k] == 0,
            decreases DATA_LEN - i,
        {
            if self.data[i] != 0 {
                proof {
                    assert(word_ok(self.data[i as int]));
                    lemma_word_zero(self.data[i as int]);
                    let e: int = if entry(self.data[i as int], 0) != 0 {
                        0
                    } else if entry(self.data[i as int], 1) != 0 {
                        1
                    } else if entry(self.data[i as int], 2) != 0 {
                        2
                    } else {
                        3
                    };
                    assert(entry(self.data[i as int], e) != 0);
                    assert(entry(self.data[i as int], e) != 3);
                    lemma_entry_bounds(self.data[i as int], e as u64);
                    let j = i * 4 + e;
                    assert(j / 4 == i && j % 4 == e);
                    assert(self@[j] != Tile::Empty);
                }
                return false;
            }
            i = i + 1;
        }
        proof {
            assert forall|j: int| 0 <= j < chunk_tiles() implies #[trigger] self@[j] == Tile::Empty by {
                assert(self.data[j / 4] == 0);
                lemma_zero_entries((j % 4) as u64);
            }
        }
        true
    }
}

} // verus!
