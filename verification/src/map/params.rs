use vstd::prelude::*;

verus! {

/// Base-two logarithm of the side of a chunk, in tiles.
pub const CHUNK_LOG_SIZE: usize = 3;

/// Base-two logarithm of the number of children along one side of a quad-tree node.
pub const NODE_LOG_SIZE: usize = 1;

} // verus!
