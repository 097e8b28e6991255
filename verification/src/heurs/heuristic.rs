use vstd::prelude::*;
use crate::map::chunk::CHUNK_SIZE;
use crate::map::neighbours::{Neighbours, all_cells, lemma_rows_in_range};

verus! {

/// A measure of the board that is counted chunk by chunk, looking at each
/// tile and the tiles up to `get_extra` after it.
pub trait Heuristic: Sized {
    /// What the measure holds, as a value.
    type Counts;

    spec fn counts(&self) -> Self::Counts;

    /// The counts of a fresh measure.
    spec fn initial() -> Self::Counts;

    /// How far the measure looks, for given counts.
    spec fn extra_of(c: Self::Counts) -> int;

    /// The counts `c` with the tiles of `neigh` at and after (x, y) counted
    /// `mult` times more.
    spec fn with_point(c: Self::Counts, neigh: Neighbours, x: int, y: int, mult: i64) -> Self::Counts;

    fn new() -> (r: Self)
        ensures
            r.counts() == Self::initial(),
    ;

    fn get_extra(&self) -> (r: i64)
        ensures
            r == Self::extra_of(self.counts()),
            0 <= r < CHUNK_SIZE,
    ;

    /// Counts the tiles of `neigh` at and after (x, y) `mult` times more.
    fn run_heuristic(&mut self, neigh: &Neighbours, x: i64, y: i64, mult: i64)
        requires
            -(CHUNK_SIZE as int) <= x < CHUNK_SIZE,
            -(CHUNK_SIZE as int) <= y < CHUNK_SIZE,
        ensures
            final(self).counts() == Self::with_point(old(self).counts(), *neigh, x as int, y as int, mult),
    ;
}

/// The counts `c` with each cell of `cells` counted in turn, `mult` times.
pub open spec fn with_cells<H: Heuristic>(c: H::Counts, neigh: Neighbours, cells: Seq<(i64, i64)>, mult: i64) -> H::Counts {
    cells.fold_left(c, |acc: H::Counts, p: (i64, i64)| H::with_point(acc, neigh, p.0 as int, p.1 as int, mult))
}

/// The counts `c` with the chunks of `all` counted in turn, each over the
/// cells it owns.
pub open spec fn from_all<H: Heuristic>(c: H::Counts, all: Seq<Neighbours>) -> H::Counts {
    all.fold_left(c, |acc: H::Counts, n: Neighbours| with_cells::<H>(acc, n, n.owned_cells(H::extra_of(acc)), 1))
}

/// The measure of the chunks of `all`, each counted over the cells it owns.
pub fn from<H: Heuristic>(all: Vec<Neighbours>) -> (r: H)
    ensures
        r.counts() == from_all::<H>(H::initial(), all@),
{
    let mut t = H::new();
    let mut i: usize = 0;
    while i < all.len()
        invariant
            i <= all@.len(),
            t.counts() == from_all::<H>(H::initial(), all@.subrange(0, i as int)),
        decreases all@.len() - i,
    {
        let neigh = &all[i];
        let ghost c0 = t.counts();
        let e = t.get_extra();
        let cells = neigh.on_owned_tiles(e);
        proof {
            lemma_rows_in_range(
                neigh.owned_first(e as int),
                CHUNK_SIZE as int,
                |x: int| neigh.owned_start(e as int, x),
                -e,
            );
        }
        let mut k: usize = 0;
        while k < cells.len()
            invariant
                k <= cells@.len(),
                cells@ == neigh.owned_cells(e as int),
                0 <= e < CHUNK_SIZE,
                forall|j: int|
                    0 <= j < cells@.len() ==> -e <= (#[trigger] cells@[j]).0 < CHUNK_SIZE && -e <= cells@[j].1
                        < CHUNK_SIZE,
                t.counts() == with_cells::<H>(c0, *neigh, cells@.subrange(0, k as int), 1),
            decreases cells@.len() - k,
        {
            let (x, y) = cells[k];
            t.run_heuristic(neigh, x, y, 1);
            proof {
                assert(cells@.subrange(0, k + 1).drop_last() =~= cells@.subrange(0, k as int));
            }
            k += 1;
        }
        proof {
            assert(cells@.subrange(0, cells@.len() as int) =~= cells@);
            assert(all@.subrange(0, i + 1).drop_last() =~= all@.subrange(0, i as int));
        }
        i += 1;
    }
    proof {
        assert(all@.subrange(0, all@.len() as int) =~= all@);
    }
    t
}


/// Counts the tiles of `neigh`, from `get_extra` before the middle chunk
/// to its end, `mult` times more.
pub fn update<H: Heuristic>(h: &mut H, neigh: &Neighbours, mult: i64)
    ensures
        final(h).counts() == with_cells::<H>(
            old(h).counts(),
            *neigh,
            all_cells(H::extra_of(old(h).counts())),
            mult,
        ),
{
    let e = h.get_extra();
    let cells = neigh.on_all_tiles(e);
    proof {
        lemma_rows_in_range(-e, CHUNK_SIZE as int, |x: int| -e, -e);
    }
    let ghost c0 = h.counts();
    let mut k: usize = 0;
    while k < cells.len()
        invariant
            k <= cells@.len(),
            cells@ == all_cells(e as int),
            0 <= e < CHUNK_SIZE,
            forall|j: int|
                0 <= j < cells@.len() ==> -e <= (#[trigger] cells@[j]).0 < CHUNK_SIZE && -e <= cells@[j].1
                    < CHUNK_SIZE,
            h.counts() == with_cells::<H>(c0, *neigh, cells@.subrange(0, k as int), mult),
        decreases cells@.len() - k,
    {
        let (x, y) = cells[k];
        h.run_heuristic(neigh, x, y, mult);
        proof {
            assert(cells@.subrange(0, k + 1).drop_last() =~= cells@.subrange(0, k as int));
        }
        k += 1;
    }
    proof {
        assert(cells@.subrange(0, cells@.len() as int) =~= cells@);
    }
}

} // verus!
