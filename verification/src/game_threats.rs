use vstd::prelude::*;
use vstd::array::spec_array_update;
use crate::game_map::{CheckResult, LineChecker, Tile, WIN_LEN};

verus! {

/// Number of tiles of `s` that are `t`.
pub open spec fn count_of(s: Seq<Tile>, t: Tile) -> nat
    decreases s.len(),
{
    if s.len() == 0 {
        0
    } else {
        count_of(s.drop_last(), t) + if s.last() == t {
            1nat
        } else {
            0nat
        }
    }
}

proof fn lemma_count_push(s: Seq<Tile>, j: int, t: Tile)
    requires
        0 <= j < s.len(),
    ensures
        count_of(s.subrange(0, j + 1), t) == count_of(s.subrange(0, j), t) + if s[j] == t {
            1nat
        } else {
            0nat
        },
{
    assert(s.subrange(0, j + 1).drop_last() =~= s.subrange(0, j));
}

proof fn lemma_count_bound(s: Seq<Tile>, t: Tile)
    ensures
        count_of(s, t) <= s.len(),
        count_of(s, Tile::X) + count_of(s, Tile::O) <= s.len(),
    decreases s.len(),
{
    if s.len() > 0 {
        lemma_count_bound(s.drop_last(), t);
    }
}

/// The counts (of X, of O) after one more line: where the line holds k + 1
/// stones of one player and none of the other, that player's count of kind
/// k goes up by one, wrapping around in `u64`.
pub open spec fn line_counted(c: (Seq<u64>, Seq<u64>), line: Seq<Tile>) -> (Seq<u64>, Seq<u64>) {
    let cx = count_of(line, Tile::X) as int;
    let co = count_of(line, Tile::O) as int;
    if cx == 0 && co != 0 {
        (c.0, c.1.update(co - 1, c.1[co - 1].wrapping_add(1)))
    } else if cx != 0 && co == 0 {
        (c.0.update(cx - 1, c.0[cx - 1].wrapping_add(1)), c.1)
    } else {
        c
    }
}

/// Counts of the lines of WIN_LEN tiles that hold stones of one player only,
/// by player and by number of stones less one.
pub struct GameThreats {
    threats_x: [u64; WIN_LEN],
    threats_o: [u64; WIN_LEN],
}

impl GameThreats {
    pub closed spec fn counts(self) -> (Seq<u64>, Seq<u64>) {
        (self.threats_x@, self.threats_o@)
    }

    pub fn new() -> (r: GameThreats)
        ensures
            r.counts() == (seq![0u64, 0, 0, 0, 0, 0], seq![0u64, 0, 0, 0, 0, 0]),
    {
        let r = GameThreats { threats_x: [0; WIN_LEN], threats_o: [0; WIN_LEN] };
        proof {
            assert(r.threats_x@ =~= seq![0u64, 0, 0, 0, 0, 0]);
            assert(r.threats_o@ =~= seq![0u64, 0, 0, 0, 0, 0]);
        }
        r
    }
}

impl LineChecker for GameThreats {
    /// A line that holds WIN_LEN stones of each player stops the check; no
    /// line of WIN_LEN tiles does.
    closed spec fn stops_at(&self, line: Seq<Tile>) -> bool {
        count_of(line, Tile::X) == 6 && count_of(line, Tile::O) == 6
    }

    /// The counts after the line (see `line_counted`).
    closed spec fn after_line(&self, line: Seq<Tile>) -> GameThreats {
        let cx = count_of(line, Tile::X) as int;
        let co = count_of(line, Tile::O) as int;
        if cx == 6 && co == 6 {
            *self
        } else if cx == 0 && co != 0 {
            GameThreats {
                threats_x: self.threats_x,
                threats_o: spec_array_update(self.threats_o, co - 1, self.threats_o[co - 1].wrapping_add(1)),
            }
        } else if cx != 0 && co == 0 {
            GameThreats {
                threats_x: spec_array_update(self.threats_x, cx - 1, self.threats_x[cx - 1].wrapping_add(1)),
                threats_o: self.threats_o,
            }
        } else {
            *self
        }
    }

    /// Counts the line (see `line_counted`); a line never holds WIN_LEN
    /// stones of both players, so the answer is always `Ok`.
    fn on_line(&mut self, line: &[Tile; WIN_LEN]) -> (r: CheckResult)
        ensures
            final(self).counts() == line_counted(old(self).counts(), line@),
            r == Ok::<(), ()>(()),
    {
        let ghost s = line@;
        let mut cnt_x: usize = 0;
        let mut cnt_o: usize = 0;
        let mut j: usize = 0;
        while j < WIN_LEN
            invariant
                j <= WIN_LEN,
                s == line@,
                cnt_x == count_of(s.subrange(0, j as int), Tile::X),
                cnt_o == count_of(s.subrange(0, j as int), Tile::O),
            decreases WIN_LEN - j,
        {
            proof {
                lemma_count_push(s, j as int, Tile::X);
                lemma_count_push(s, j as int, Tile::O);
                lemma_count_bound(s.subrange(0, j as int), Tile::X);
                lemma_count_bound(s.subrange(0, j as int), Tile::O);
            }
            match line[j] {
                Tile::Empty => {},
                Tile::X => cnt_x += 1,
                Tile::O => cnt_o += 1,
            }
            j += 1;
        }
        proof {
            assert(s.subrange(0, WIN_LEN as int) =~= s);
            lemma_count_bound(s, Tile::X);
            lemma_count_bound(s, Tile::O);
        }
        if cnt_o == 6 && cnt_x == 6 {
            return Err(());
        }
        if cnt_x == 0 {
            if cnt_o == 0 {
                return Ok(());
            }
            self.threats_o[cnt_o - 1] = self.threats_o[cnt_o - 1].wrapping_add(1);
        } else {
            if cnt_o != 0 {
                return Ok(());
            }
            self.threats_x[cnt_x - 1] = self.threats_x[cnt_x - 1].wrapping_add(1);
        }
        proof {
            assert(self.counts().0 =~= line_counted(old(self).counts(), s).0);
            assert(self.counts().1 =~= line_counted(old(self).counts(), s).1);
            let a = old(self).after_line(s);
            assert(self.threats_x@ =~= a.threats_x@);
            assert(self.threats_o@ =~= a.threats_o@);
            assert(self.threats_x =~= a.threats_x);
            assert(self.threats_o =~= a.threats_o);
        }
        Ok(())
    }
}

} // verus!
