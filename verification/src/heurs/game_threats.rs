use vstd::prelude::*;
use std::cmp::Ordering;
use crate::map::chunk::CHUNK_SIZE;
use crate::map::neighbours::Neighbours;
use crate::map::tile::Tile;
use crate::map::heurs::game_threats::{count_tile, lemma_count_push, lemma_count_bound};
use crate::heurs::heuristic::Heuristic;

verus! {

/// Number of stones in a row that wins.
pub const WIN_LEN: usize = 6;

/// The counts `c` (of X, of O) after one more line of WIN_LEN tiles: where
/// the line holds k + 1 stones of one player and none of the other, that
/// player's count of kind k gains `mult`, wrapping around in `i64`.
pub open spec fn line_counted(c: (Seq<i64>, Seq<i64>), line: Seq<Tile>, mult: i64) -> (Seq<i64>, Seq<i64>) {
    let cx = count_tile(line, Tile::X) as int;
    let co = count_tile(line, Tile::O) as int;
    let xs = if cx != 0 && co == 0 {
        c.0.update(cx - 1, c.0[cx - 1].wrapping_add(mult))
    } else {
        c.0
    };
    let os = if cx == 0 && co != 0 {
        c.1.update(co - 1, c.1[co - 1].wrapping_add(mult))
    } else {
        c.1
    };
    (xs, os)
}

/// A line that holds stones of both players counts for neither; a line
/// without a stone of a player leaves that player's counts as they are.
pub proof fn lemma_line_counted_one_sided(c: (Seq<i64>, Seq<i64>), line: Seq<Tile>, mult: i64)
    ensures
        count_tile(line, Tile::X) > 0 && count_tile(line, Tile::O) > 0 ==> line_counted(c, line, mult) == c,
        count_tile(line, Tile::O) == 0 ==> line_counted(c, line, mult).1 == c.1,
        count_tile(line, Tile::X) == 0 ==> line_counted(c, line, mult).0 == c.0,
{
}

/// The WIN_LEN tiles of `neigh` from (x, y) on, in steps of (dx, dy).
pub open spec fn line_of(neigh: Neighbours, x: int, y: int, dx: int, dy: int) -> Seq<Tile> {
    Seq::new(WIN_LEN as nat, |i: int| neigh.tile_at(x + i * dx, y + i * dy))
}

/// Counts of the lines of WIN_LEN tiles that hold stones of one player only,
/// by player and by number of stones less one.
#[derive(Debug, PartialEq, Eq)]
pub struct GameThreats {
    pub threats_x: [i64; WIN_LEN],
    pub threats_o: [i64; WIN_LEN],
}

/// The WIN_LEN tiles of `neigh` from (x, y) on, in steps of (dx, dy).
fn read_line(neigh: &Neighbours, x: i64, y: i64, dx: i64, dy: i64) -> (arr: [Tile; WIN_LEN])
    requires
        -(CHUNK_SIZE as int) <= x < CHUNK_SIZE,
        -(CHUNK_SIZE as int) <= y < CHUNK_SIZE,
        0 <= dx <= 1,
        0 <= dy <= 1,
    ensures
        arr@ == line_of(*neigh, x as int, y as int, dx as int, dy as int),
{
    let mut arr: [Tile; WIN_LEN] = [Tile::Empty; WIN_LEN];
    let mut i: usize = 0;
    while i < WIN_LEN
        invariant
            i <= WIN_LEN,
            -(CHUNK_SIZE as int) <= x < CHUNK_SIZE,
            -(CHUNK_SIZE as int) <= y < CHUNK_SIZE,
            0 <= dx <= 1,
            0 <= dy <= 1,
            forall|j: int| 0 <= j < i ==> #[trigger] arr@[j] == neigh.tile_at(x + j * dx, y + j * dy),
        decreases WIN_LEN - i,
    {
        let ii = i as i64;
        proof {
            assert(0 <= ii * dx <= ii && 0 <= ii * dy <= ii) by (nonlinear_arith)
                requires
                    0 <= dx <= 1,
                    0 <= dy <= 1,
                    0 <= ii,
            ;
        }
        arr[i] = neigh.get_tile(x + ii * dx, y + ii * dy);
        i += 1;
    }
    proof {
        assert(arr@ =~= line_of(*neigh, x as int, y as int, dx as int, dy as int));
    }
    arr
}

impl GameThreats {
    /// Counts one more line, `mult` times (see `line_counted`).
    fn on_line(&mut self, line: &[Tile; WIN_LEN], mult: i64)
        ensures
            (final(self).threats_x@, final(self).threats_o@) == line_counted(
                (old(self).threats_x@, old(self).threats_o@),
                line@,
                mult,
            ),
            count_tile(line@, Tile::X) > 0 && count_tile(line@, Tile::O) > 0 ==> final(self).threats_x@ == old(
                self,
            ).threats_x@ && final(self).threats_o@ == old(self).threats_o@,
    {
        proof {
            lemma_line_counted_one_sided((self.threats_x@, self.threats_o@), line@, mult);
        }
        let ghost s = line@;
        let mut cnt_x: usize = 0;
        let mut cnt_o: usize = 0;
        let mut j: usize = 0;
        while j < WIN_LEN
            invariant
                j <= WIN_LEN,
                s == line@,
                cnt_x == count_tile(s.subrange(0, j as int), Tile::X),
                cnt_o == count_tile(s.subrange(0, j as int), Tile::O),
            decreases WIN_LEN - j,
        {
            proof {
                lemma_count_push(s, 0, j as int, Tile::X);
                lemma_count_push(s, 0, j as int, Tile::O);
                lemma_count_bound(s.subrange(0, j as int), Tile::X);
                lemma_count_bound(s.subrange(0, j as int), Tile::O);
            }
            match line[j] {
                Tile::Empty => {},
                Tile::X => cnt_x += 1,
                Tile::O => cnt_o += 1,
            }
            j += 1;
        }
        proof {
            assert(s.subrange(0, WIN_LEN as int) =~= s);
            lemma_count_bound(s, Tile::X);
            lemma_count_bound(s, Tile::O);
        }
        if cnt_x == 0 && cnt_o != 0 {
            self.threats_o[cnt_o - 1] = self.threats_o[cnt_o - 1].wrapping_add(mult);
        }
        if cnt_x != 0 && cnt_o == 0 {
            self.threats_x[cnt_x - 1] = self.threats_x[cnt_x - 1].wrapping_add(mult);
        }
        proof {
            assert(final(self).threats_x@ =~= line_counted((old(self).threats_x@, old(self).threats_o@), s, mult).0);
            assert(final(self).threats_o@ =~= line_counted((old(self).threats_x@, old(self).threats_o@), s, mult).1);
        }
    }

    /// The measure of a position won by X.
    pub fn new_max() -> (r: GameThreats)
        ensures
            r.threats_x@ == seq![0i64, 0, 0, 0, 0, 1],
            r.threats_o@ == seq![0i64, 0, 0, 0, 0, 0],
    {
        let mut new_threats = GameThreats::new();
        new_threats.threats_x[WIN_LEN - 1] = 1;
        proof {
            assert(new_threats.threats_x@ =~= seq![0i64, 0, 0, 0, 0, 1]);
        }
        new_threats
    }

    /// The measure of a position won by O.
    pub fn new_min() -> (r: GameThreats)
        ensures
            r.threats_x@ == seq![0i64, 0, 0, 0, 0, 0],
            r.threats_o@ == seq![0i64, 0, 0, 0, 0, 1],
    {
        let mut new_threats = GameThreats::new();
        new_threats.threats_o[WIN_LEN - 1] = 1;
        proof {
            assert(new_threats.threats_o@ =~= seq![0i64, 0, 0, 0, 0, 1]);
        }
        new_threats
    }

    /// Compares the counts of X over the kinds in the half-open range
    /// WIN_LEN - 1 .. 0; that range is empty, so every two measures compare
    /// equal.
    pub fn cmp(&self, other: &Self) -> (r: Ordering)
        ensures
            r == Ordering::Equal,
    {
        let mut i: usize = WIN_LEN - 1;
        while i < 0
            invariant
                i <= WIN_LEN - 1,
            decreases 0 - i,
        {
            if self.threats_x[i] < other.threats_x[i] {
                return Ordering::Less;
            }
            if self.threats_x[i] > other.threats_x[i] {
                return Ordering::Greater;
            }
            i += 1;
        }
        Ordering::Equal
    }

    pub fn partial_cmp(&self, other: &Self) -> (r: Option<Ordering>)
        ensures
            r == Some(Ordering::Equal),
    {
        Some(self.cmp(other))
    }
}

impl Heuristic for GameThreats {
    type Counts = (Seq<i64>, Seq<i64>);

    open spec fn counts(&self) -> (Seq<i64>, Seq<i64>) {
        (self.threats_x@, self.threats_o@)
    }

    open spec fn initial() -> (Seq<i64>, Seq<i64>) {
        (seq![0i64, 0, 0, 0, 0, 0], seq![0i64, 0, 0, 0, 0, 0])
    }

    open spec fn extra_of(c: (Seq<i64>, Seq<i64>)) -> int {
        WIN_LEN - 1
    }

    /// The lines from (x, y) along y, along x and along the diagonal are
    /// counted, in that order.
    open spec fn with_point(
        c: (Seq<i64>, Seq<i64>),
        neigh: Neighbours,
        x: int,
        y: int,
        mult: i64,
    ) -> (Seq<i64>, Seq<i64>) {
        let c1 = line_counted(c, line_of(neigh, x, y, 0, 1), mult);
        let c2 = line_counted(c1, line_of(neigh, x, y, 1, 0), mult);
        line_counted(c2, line_of(neigh, x, y, 1, 1), mult)
    }

    fn new() -> (r: GameThreats) {
        let r = GameThreats { threats_x: [0i64; WIN_LEN], threats_o: [0i64; WIN_LEN] };
        proof {
            assert(r.threats_x@ =~= seq![0i64, 0, 0, 0, 0, 0]);
            assert(r.threats_o@ =~= seq![0i64, 0, 0, 0, 0, 0]);
        }
        r
    }

    fn get_extra(&self) -> (r: i64) {
        (WIN_LEN - 1) as i64
    }

    fn run_heuristic(&mut self, neigh: &Neighbours, x: i64, y: i64, mult: i64) {
        let line = read_line(neigh, x, y, 0, 1);
        self.on_line(&line, mult);
        let line = read_line(neigh, x, y, 1, 0);
        self.on_line(&line, mult);
        let line = read_line(neigh, x, y, 1, 1);
        self.on_line(&line, mult);
    }
}

/// Counting a line `mult` times and then `-mult` times gives back the counts.
pub proof fn lemma_line_cancels(c: (Seq<i64>, Seq<i64>), line: Seq<Tile>, mult: i64)
    requires
        mult > i64::MIN,
        c.0.len() == WIN_LEN,
        c.1.len() == WIN_LEN,
        line.len() == WIN_LEN,
    ensures
        line_counted(line_counted(c, line, mult), line, (-mult) as i64) == c,
{
    lemma_count_bound(line, Tile::X);
    lemma_count_bound(line, Tile::O);
    let c1 = line_counted(c, line, mult);
    let c2 = line_counted(c1, line, (-mult) as i64);
    assert(c2.0 =~= c.0);
    assert(c2.1 =~= c.1);
}

} // verus!
