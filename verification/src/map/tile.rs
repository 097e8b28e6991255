use vstd::prelude::*;

verus! {

/// The content of one cell of the board.
#[derive(Clone, Copy, PartialEq, Eq, Debug, Structural)]
pub enum Tile {
    Empty,
    X,
    O,
}

/// Number of bits that encode one tile inside a chunk word.
pub const TILE_BITS: usize = 2;

/// The two-bit code of a tile: `Empty` is 0, `X` is 1, `O` is 2.
pub open spec fn tile_code(t: Tile) -> u64 {
    match t {
        Tile::Empty => 0,
        Tile::X => 1,
        Tile::O => 2,
    }
}

/// The tile that a two-bit code stands for; the unused code 3 reads as `Empty`.
pub open spec fn tile_of_code(c: u64) -> Tile {
    if c == 1 {
        Tile::X
    } else if c == 2 {
        Tile::O
    } else {
        Tile::Empty
    }
}

/// The character that shows a tile.
pub open spec fn tile_char(t: Tile) -> char {
    match t {
        Tile::Empty => ' ',
        Tile::X => 'X',
        Tile::O => 'O',
    }
}

impl Tile {
    pub fn to_char(&self) -> (c: char)
        ensures
            c == tile_char(*self),
    {
        match self {
            Tile::Empty => ' ',
            Tile::X => 'X',
            Tile::O => 'O',
        }
    }

    /// The two-bit code under which a chunk stores this tile.
    pub fn code(&self) -> (c: u64)
        ensures
            c == tile_code(*self),
            c < 3,
            tile_of_code(c) == *self,
    {
        match self {
            Tile::Empty => 0,
            Tile::X => 1,
            Tile::O => 2,
        }
    }
}

} // verus!
