use vstd::prelude::*;
use crate::map::tile::Tile;
use crate::map::quad_root::QuadRoot;
use crate::map::heurs::heuristic::Heuristic;
use std::cmp::Ordering;

verus! {

/// Number of stones in a row that wins.
pub const WIN_LEN: usize = 6;

/// Number of tiles of a line through a tile: WIN_LEN - 1 on each side of it.
pub const LINE_LEN: usize = 11;

/// Number of tiles that `count_tile` finds equal to `t` in `s`.
pub open spec fn count_tile(s: Seq<Tile>, t: Tile) -> nat
    decreases s.len(),
{
    if s.len() == 0 {
        0
    } else {
        count_tile(s.drop_last(), t) + if s.last() == t {
            1nat
        } else {
            0nat
        }
    }
}

/// The opponent's stone.
pub open spec fn other(t: Tile) -> Tile {
    match t {
        Tile::X => Tile::O,
        Tile::O => Tile::X,
        Tile::Empty => Tile::Empty,
    }
}

/// A window of WIN_LEN tiles that holds `k + 1` stones `t` and no stone of the opponent.
pub open spec fn is_threat(win: Seq<Tile>, t: Tile, k: int) -> bool {
    count_tile(win, t) == k + 1 && count_tile(win, other(t)) == 0
}

/// A window that holds stones of both players is a threat for neither.
pub proof fn lemma_blocked_window(win: Seq<Tile>, k: int)
    requires
        count_tile(win, Tile::X) > 0,
        count_tile(win, Tile::O) > 0,
    ensures
        !is_threat(win, Tile::X, k),
        !is_threat(win, Tile::O, k),
{
}

/// A threat belongs to a player, and its window holds no stone of the
/// opponent.
pub proof fn lemma_threat_one_sided(win: Seq<Tile>, t: Tile, k: int)
    requires
        is_threat(win, t, k),
        0 <= k,
    ensures
        t != Tile::Empty,
        count_tile(win, other(t)) == 0,
        count_tile(win, t) == k + 1,
{
}

/// The window of WIN_LEN tiles of `line` that starts at `w`.
pub open spec fn window(line: Seq<Tile>, w: int) -> Seq<Tile> {
    line.subrange(w, w + WIN_LEN as int)
}

/// Number of the windows that start at 0 .. n on `line` and are threats of
/// `k + 1` stones `t`.
pub open spec fn line_threats(line: Seq<Tile>, t: Tile, k: int, n: int) -> int
    decreases n,
{
    if n <= 0 {
        0
    } else {
        line_threats(line, t, k, n - 1) + if is_threat(window(line, n - 1), t, k) {
            1int
        } else {
            0int
        }
    }
}

/// Number of the windows of a line of 2 * WIN_LEN - 1 tiles that hold its
/// middle tile and are threats of `k + 1` stones `t`.
pub open spec fn centered_threats(line: Seq<Tile>, t: Tile, k: int) -> int {
    line_threats(line, t, k, WIN_LEN as int)
}

/// A run of tiles whose only stone is an X at `p` (where `p` lies in it)
/// holds one X where it holds `p`, and no O.
pub proof fn lemma_count_lone(s: Seq<Tile>, p: int)
    requires
        forall|i: int| 0 <= i < s.len() ==> #[trigger] s[i] == if i == p {
            Tile::X
        } else {
            Tile::Empty
        },
    ensures
        count_tile(s, Tile::X) == if 0 <= p < s.len() {
            1nat
        } else {
            0nat
        },
        count_tile(s, Tile::O) == 0,
    decreases s.len(),
{
    if s.len() > 0 {
        let t = s.drop_last();
        assert forall|i: int| 0 <= i < t.len() implies #[trigger] t[i] == if i == p {
            Tile::X
        } else {
            Tile::Empty
        } by {
            assert(t[i] == s[i]);
        }
        lemma_count_lone(t, p);
        assert(s.last() == s[s.len() - 1]);
    }
}

/// The windows of the first `n` (up to WIN_LEN) of a line of LINE_LEN tiles
/// whose only stone is an X at its middle all hold that one X.
proof fn lemma_lone_line_threats(line: Seq<Tile>, t: Tile, k: int, n: int)
    requires
        line.len() == LINE_LEN,
        forall|i: int| 0 <= i < LINE_LEN ==> #[trigger] line[i] == if i == WIN_LEN - 1 {
            Tile::X
        } else {
            Tile::Empty
        },
        0 <= n <= WIN_LEN,
        0 <= k,
        t != Tile::Empty,
    ensures
        line_threats(line, t, k, n) == if t == Tile::X && k == 0 {
            n
        } else {
            0
        },
    decreases n,
{
    if n > 0 {
        lemma_lone_line_threats(line, t, k, n - 1);
        let w = window(line, n - 1);
        assert forall|i: int| 0 <= i < w.len() implies #[trigger] w[i] == if i == WIN_LEN - 1 - (n - 1) {
            Tile::X
        } else {
            Tile::Empty
        } by {
            assert(w[i] == line[n - 1 + i]);
        }
        lemma_count_lone(w, WIN_LEN - 1 - (n - 1));
    }
}

/// The windows of an empty line hold no threat.
proof fn lemma_empty_line_threats(line: Seq<Tile>, t: Tile, k: int, n: int)
    requires
        line.len() == LINE_LEN,
        forall|i: int| 0 <= i < LINE_LEN ==> #[trigger] line[i] == Tile::Empty,
        0 <= n <= WIN_LEN,
        0 <= k,
    ensures
        line_threats(line, t, k, n) == 0,
    decreases n,
{
    if n > 0 {
        lemma_empty_line_threats(line, t, k, n - 1);
        let w = window(line, n - 1);
        assert forall|i: int| 0 <= i < w.len() implies #[trigger] w[i] == if i == -1 {
            Tile::X
        } else {
            Tile::Empty
        } by {
            assert(w[i] == line[n - 1 + i]);
        }
        lemma_count_lone(w, -1);
        if t == Tile::Empty {
            assert(other(t) == Tile::Empty);
        }
    }
}

/// Around a lone X on an empty board, each of the three lines through it
/// holds six windows of one X, and nothing else counts; on the empty board
/// nothing counts.
pub proof fn lemma_lone_stone(b0: QuadRoot, b1: QuadRoot, x: int, y: int, t: Tile, k: int)
    requires
        forall|a: int, b: int| #[trigger] b0.tile(a, b) == Tile::Empty,
        forall|a: int, b: int| #[trigger] b1.tile(a, b) == if a == x && b == y {
            Tile::X
        } else {
            Tile::Empty
        },
        0 <= k < WIN_LEN,
        t != Tile::Empty,
    ensures
        point_threats(b0, x, y, t, k) == 0,
        point_threats(b1, x, y, t, k) == if t == Tile::X && k == 0 {
            18int
        } else {
            0
        },
{
    lemma_empty_line_threats(line_h(b0, x, y), t, k, WIN_LEN as int);
    lemma_empty_line_threats(line_v(b0, x, y), t, k, WIN_LEN as int);
    lemma_empty_line_threats(line_d(b0, x, y), t, k, WIN_LEN as int);
    lemma_lone_line_threats(line_h(b1, x, y), t, k, WIN_LEN as int);
    lemma_lone_line_threats(line_v(b1, x, y), t, k, WIN_LEN as int);
    lemma_lone_line_threats(line_d(b1, x, y), t, k, WIN_LEN as int);
}

/// `v` reduced into the range of `i16`, as two's complement arithmetic wraps it.
pub open spec fn wrap16(v: int) -> int {
    ((v + 0x8000) % 0x1_0000) - 0x8000
}

pub proof fn lemma_wrap16_range(v: int)
    ensures
        i16::MIN <= wrap16(v) <= i16::MAX,
        i16::MIN <= v <= i16::MAX ==> wrap16(v) == v,
{
    vstd::arithmetic::div_mod::lemma_mod_bound(v + 0x8000, 0x1_0000);
    if i16::MIN <= v <= i16::MAX {
        vstd::arithmetic::div_mod::lemma_small_mod((v + 0x8000) as nat, 0x1_0000);
    }
}

/// The negation of an `i16` value reduces to 0 only for 0.
pub proof fn lemma_wrap16_zero(v: int)
    requires
        i16::MIN <= v <= i16::MAX + 1,
    ensures
        (wrap16(v) == 0) == (v == 0),
{
    if v == i16::MAX + 1 {
        vstd::arithmetic::div_mod::lemma_fundamental_div_mod_converse(v + 0x8000, 0x1_0000, 1, 0);
    } else {
        lemma_wrap16_range(v);
    }
}

/// Reducing a part of a sum first does not change the reduced sum.
pub proof fn lemma_wrap16_add(a: int, b: int)
    ensures
        wrap16(wrap16(a) + b) == wrap16(a + b),
{
    let m = 0x1_0000int;
    vstd::arithmetic::div_mod::lemma_fundamental_div_mod(a + 0x8000, m);
    let q = (a + 0x8000) / m;
    assert(wrap16(a) + b + 0x8000 == (a + b + 0x8000) - m * q);
    vstd::arithmetic::div_mod::lemma_mod_multiples_vanish(-q, a + b + 0x8000, m);
    assert(m * (-q) + (a + b + 0x8000) == (a + b + 0x8000) - m * q) by (nonlinear_arith);
}

/// `wrapping_add` on `i16` reduces the sum.
pub proof fn lemma_wrapping_add(x: i16, y: i16)
    ensures
        x.wrapping_add(y) == wrap16(x + y),
{
    let v = x + y;
    if v > i16::MAX {
        vstd::arithmetic::div_mod::lemma_fundamental_div_mod_converse(v + 0x8000, 0x1_0000, 1, v + 0x8000 - 0x1_0000);
    } else if v < i16::MIN {
        vstd::arithmetic::div_mod::lemma_fundamental_div_mod_converse(v + 0x8000, 0x1_0000, -1, v + 0x8000 + 0x1_0000);
    } else {
        lemma_wrap16_range(v);
    }
}

/// `wrapping_sub` on `i16` reduces the difference.
pub proof fn lemma_wrapping_sub(x: i16, y: i16)
    ensures
        x.wrapping_sub(y) == wrap16(x - y),
{
    let v = x - y;
    if v > i16::MAX {
        vstd::arithmetic::div_mod::lemma_fundamental_div_mod_converse(v + 0x8000, 0x1_0000, 1, v + 0x8000 - 0x1_0000);
    } else if v < i16::MIN {
        vstd::arithmetic::div_mod::lemma_fundamental_div_mod_converse(v + 0x8000, 0x1_0000, -1, v + 0x8000 + 0x1_0000);
    } else {
        lemma_wrap16_range(v);
    }
}

pub proof fn lemma_count_push(s: Seq<Tile>, a: int, b: int, t: Tile)
    requires
        0 <= a <= b < s.len(),
    ensures
        count_tile(s.subrange(a, b + 1), t) == count_tile(s.subrange(a, b), t) + if s[b] == t {
            1nat
        } else {
            0nat
        },
{
    assert(s.subrange(a, b + 1).drop_last() =~= s.subrange(a, b));
}

proof fn lemma_count_front(s: Seq<Tile>, t: Tile)
    requires
        s.len() >= 1,
    ensures
        count_tile(s, t) == count_tile(s.drop_first(), t) + if s[0] == t {
            1nat
        } else {
            0nat
        },
    decreases s.len(),
{
    if s.len() == 1 {
        assert(s.drop_first().len() == 0);
        assert(s.drop_last().len() == 0);
        assert(count_tile(s.drop_last(), t) == 0);
        assert(count_tile(s.drop_first(), t) == 0);
    } else {
        lemma_count_front(s.drop_last(), t);
        assert(s.drop_last().drop_first() =~= s.drop_first().drop_last());
        assert(s.drop_first().last() == s.last());
        assert(s.drop_last()[0] == s[0]);
        assert(count_tile(s.drop_first(), t) == count_tile(s.drop_first().drop_last(), t) + if s.last() == t {
            1nat
        } else {
            0nat
        });
    }
}

proof fn lemma_count_pop(s: Seq<Tile>, a: int, b: int, t: Tile)
    requires
        0 <= a < b <= s.len(),
    ensures
        count_tile(s.subrange(a, b), t) == count_tile(s.subrange(a + 1, b), t) + if s[a] == t {
            1nat
        } else {
            0nat
        },
{
    lemma_count_front(s.subrange(a, b), t);
    assert(s.subrange(a, b).drop_first() =~= s.subrange(a + 1, b));
}

pub proof fn lemma_count_bound(s: Seq<Tile>, t: Tile)
    ensures
        count_tile(s, t) <= s.len(),
        count_tile(s, t) + count_tile(s, other(t)) <= s.len() || t == Tile::Empty,
    decreases s.len(),
{
    if s.len() > 0 {
        lemma_count_bound(s.drop_last(), t);
    }
}

proof fn lemma_line_threats_bounds(line: Seq<Tile>, t: Tile, k: int, n: int, m: int)
    requires
        0 <= n <= m,
    ensures
        0 <= line_threats(line, t, k, n) <= line_threats(line, t, k, m),
        line_threats(line, t, k, m) <= m,
    decreases m,
{
    if m > 0 {
        if n < m {
            lemma_line_threats_bounds(line, t, k, n, m - 1);
        } else {
            lemma_line_threats_bounds(line, t, k, n - 1, m - 1);
        }
    }
}

/// The line of LINE_LEN tiles of `map` along x, centred on (x, y).
pub open spec fn line_h(map: QuadRoot, x: int, y: int) -> Seq<Tile> {
    Seq::new(LINE_LEN as nat, |i: int| map.tile(x - (WIN_LEN - 1) + i, y))
}

/// The line of LINE_LEN tiles of `map` along y, centred on (x, y).
pub open spec fn line_v(map: QuadRoot, x: int, y: int) -> Seq<Tile> {
    Seq::new(LINE_LEN as nat, |i: int| map.tile(x, y - (WIN_LEN - 1) + i))
}

/// The line of LINE_LEN tiles of `map` along the diagonal x = y, centred on (x, y).
pub open spec fn line_d(map: QuadRoot, x: int, y: int) -> Seq<Tile> {
    Seq::new(LINE_LEN as nat, |i: int| map.tile(x - (WIN_LEN - 1) + i, y - (WIN_LEN - 1) + i))
}

/// Number of windows through (x, y), along the three lines, that are threats
/// of `k + 1` stones `t`.
pub open spec fn point_threats(map: QuadRoot, x: int, y: int, t: Tile, k: int) -> int {
    centered_threats(line_h(map, x, y), t, k) + centered_threats(line_v(map, x, y), t, k)
        + centered_threats(line_d(map, x, y), t, k)
}

/// The winner that `update_done` records for the counts `xs`, `os` at `step`.
pub open spec fn winner_after(xs: Seq<i16>, os: Seq<i16>, step: u64) -> int {
    if step & 2 == 0 {
        if step & 1 == 0 && -os[3] != 0 {
            -os[3]
        } else if -os[4] != 0 {
            -os[4]
        } else if -os[5] != 0 {
            -os[5]
        } else {
            xs[5] as int
        }
    } else {
        if step & 1 == 0 && xs[3] != 0 {
            xs[3] as int
        } else if xs[4] != 0 {
            xs[4] as int
        } else if xs[5] != 0 {
            xs[5] as int
        } else {
            -os[5]
        }
    }
}

/// With one stone left in the turn (`step` odd), a four does not win: where
/// neither player has a five or a six, nobody has won.
pub proof fn lemma_four_needs_two_stones(xs: Seq<i16>, os: Seq<i16>, step: u64)
    requires
        xs.len() == WIN_LEN,
        os.len() == WIN_LEN,
        step % 2 == 1,
        xs[4] == 0,
        xs[5] == 0,
        os[4] == 0,
        os[5] == 0,
    ensures
        winner_after(xs, os, step) == 0,
{
    assert(step & 1 == 1) by (bit_vector)
        requires
            step % 2 == 1,
    ;
}

/// With both stones of the turn to play (`step` even), a four of the player
/// to move wins for that player: O when `step & 2 == 0`, else X.
pub proof fn lemma_four_wins_with_two_stones(xs: Seq<i16>, os: Seq<i16>, step: u64)
    requires
        xs.len() == WIN_LEN,
        os.len() == WIN_LEN,
        step % 2 == 0,
    ensures
        step & 2 == 0 && os[3] != 0 ==> winner_after(xs, os, step) == -os[3],
        step & 2 != 0 && xs[3] != 0 ==> winner_after(xs, os, step) == xs[3],
{
    assert(step & 1 == 0) by (bit_vector)
        requires
            step % 2 == 0,
    ;
}

/// Where nobody has a four, a five or a six, nobody has won.
pub proof fn lemma_no_long_lines_no_winner(xs: Seq<i16>, os: Seq<i16>, step: u64)
    requires
        xs.len() == WIN_LEN,
        os.len() == WIN_LEN,
        xs[3] == 0,
        xs[4] == 0,
        xs[5] == 0,
        os[3] == 0,
        os[4] == 0,
        os[5] == 0,
    ensures
        winner_after(xs, os, step) == 0,
{
}

/// Fills a line of LINE_LEN tiles from `map`, tile `i` at (x0 + i * dx, y0 + i * dy).
fn read_line(map: &QuadRoot, x0: i64, y0: i64, dx: i64, dy: i64) -> (arr: [Tile; LINE_LEN])
    requires
        0 <= dx <= 1,
        0 <= dy <= 1,
        dx == 0 || x0 + (LINE_LEN - 1) <= i64::MAX,
        dy == 0 || y0 + (LINE_LEN - 1) <= i64::MAX,
    ensures
        arr@ == Seq::new(LINE_LEN as nat, |i: int| map.tile(x0 + i * dx, y0 + i * dy)),
{
    let mut arr: [Tile; LINE_LEN] = [Tile::Empty; LINE_LEN];
    let mut i: usize = 0;
    while i < LINE_LEN
        invariant
            i <= LINE_LEN,
            0 <= dx <= 1,
            0 <= dy <= 1,
            dx == 0 || x0 + (LINE_LEN - 1) <= i64::MAX,
            dy == 0 || y0 + (LINE_LEN - 1) <= i64::MAX,
            forall|j: int| 0 <= j < i ==> #[trigger] arr@[j] == map.tile(x0 + j * dx, y0 + j * dy),
        decreases LINE_LEN - i,
    {
        let ii = i as i64;
        proof {
            assert(0 <= ii * dx <= ii && 0 <= ii * dy <= ii) by (nonlinear_arith)
                requires
                    0 <= dx <= 1,
                    0 <= dy <= 1,
                    0 <= ii,
            ;
        }
        arr[i] = map.get_tile(x0 + ii * dx, y0 + ii * dy);
        i += 1;
    }
    proof {
        assert(arr@ =~= Seq::new(LINE_LEN as nat, |i: int| map.tile(x0 + i * dx, y0 + i * dy)));
    }
    arr
}

/// Lexicographic comparison of two sequences: -1, 0 or 1.
pub open spec fn lex_compare(a: Seq<int>, b: Seq<int>) -> int
    decreases a.len(),
{
    if a.len() == 0 || b.len() == 0 {
        0
    } else if a[0] < b[0] {
        -1
    } else if a[0] > b[0] {
        1
    } else {
        lex_compare(a.drop_first(), b.drop_first())
    }
}

/// The three lines through a point contribute non-negative numbers of threats.
pub proof fn lemma_point_partials(map: QuadRoot, x: int, y: int, k: int)
    ensures
        centered_threats(line_h(map, x, y), Tile::X, k) >= 0,
        centered_threats(line_v(map, x, y), Tile::X, k) >= 0,
        centered_threats(line_d(map, x, y), Tile::X, k) >= 0,
        centered_threats(line_h(map, x, y), Tile::O, k) >= 0,
        centered_threats(line_v(map, x, y), Tile::O, k) >= 0,
        centered_threats(line_d(map, x, y), Tile::O, k) >= 0,
        centered_threats(line_h(map, x, y), Tile::X, k) <= WIN_LEN,
        centered_threats(line_v(map, x, y), Tile::X, k) <= WIN_LEN,
        centered_threats(line_d(map, x, y), Tile::X, k) <= WIN_LEN,
        centered_threats(line_h(map, x, y), Tile::O, k) <= WIN_LEN,
        centered_threats(line_v(map, x, y), Tile::O, k) <= WIN_LEN,
        centered_threats(line_d(map, x, y), Tile::O, k) <= WIN_LEN,
{
    let w = WIN_LEN as int;
    lemma_line_threats_bounds(line_h(map, x, y), Tile::X, k, 0, w);
    lemma_line_threats_bounds(line_v(map, x, y), Tile::X, k, 0, w);
    lemma_line_threats_bounds(line_d(map, x, y), Tile::X, k, 0, w);
    lemma_line_threats_bounds(line_h(map, x, y), Tile::O, k, 0, w);
    lemma_line_threats_bounds(line_v(map, x, y), Tile::O, k, 0, w);
    lemma_line_threats_bounds(line_d(map, x, y), Tile::O, k, 0, w);
}

/// `lex_compare` is a total preorder on sequences of one length.
pub proof fn lemma_lex_order(a: Seq<int>, b: Seq<int>, c: Seq<int>)
    requires
        a.len() == b.len(),
        b.len() == c.len(),
    ensures
        lex_compare(a, b) == -lex_compare(b, a),
        -1 <= lex_compare(a, b) <= 1,
        lex_compare(a, b) <= 0 && lex_compare(b, c) <= 0 ==> lex_compare(a, c) <= 0,
        lex_compare(a, b) < 0 && lex_compare(b, c) <= 0 ==> lex_compare(a, c) < 0,
        lex_compare(a, b) <= 0 && lex_compare(b, c) < 0 ==> lex_compare(a, c) < 0,
    decreases a.len(),
{
    if a.len() > 0 {
        lemma_lex_order(a.drop_first(), b.drop_first(), c.drop_first());
    }
}

/// Equal first elements leave the comparison to the rest.
proof fn lemma_lex_step(a: Seq<int>, b: Seq<int>, n: int)
    requires
        0 <= n < a.len(),
        a.len() == b.len(),
        a[n] == b[n],
    ensures
        lex_compare(a.skip(n), b.skip(n)) == lex_compare(a.skip(n + 1), b.skip(n + 1)),
{
    assert(a.skip(n).drop_first() =~= a.skip(n + 1));
    assert(b.skip(n).drop_first() =~= b.skip(n + 1));
}

/// Equal first entries leave the comparison to the rest.
proof fn lemma_lex_prefix(a: Seq<int>, b: Seq<int>, p: int)
    requires
        0 <= p < a.len(),
        a.len() == b.len(),
        forall|i: int| 0 <= i < p ==> a[i] == b[i],
    ensures
        lex_compare(a, b) == lex_compare(a.skip(p), b.skip(p)),
    decreases p,
{
    if p == 0 {
        assert(a.skip(0) =~= a);
        assert(b.skip(0) =~= b);
    } else {
        lemma_lex_prefix(a, b, p - 1);
        lemma_lex_step(a, b, p - 1);
    }
}

/// Counts of the lines of stones around the played tiles: `threats_x[k]` is
/// the number of windows of WIN_LEN tiles that hold k + 1 stones X and no
/// stone O, `threats_o` likewise for O.
#[derive(Debug, Clone, Copy, PartialEq, Eq)]
pub struct GameThreats {
    threats_x: [i16; WIN_LEN],
    threats_o: [i16; WIN_LEN],
    threats_diff: [i16; WIN_LEN],
    won_by: i16,
}

/// The measure of a position won by O: the one that X's search starts from.
pub open spec fn lowest_measure() -> GameThreats {
    choose|v: GameThreats|
        v.xs() == seq![0i16, 0, 0, 0, 0, 0] && v.os() == seq![0i16, 0, 0, 0, 0, 1] && v.diffs() == seq![
            0i16,
            0,
            0,
            0,
            0,
            -1i16,
        ] && v.won() == -1
}

/// The measure of a position won by X: the one that O's search starts from.
pub open spec fn highest_measure() -> GameThreats {
    choose|v: GameThreats|
        v.xs() == seq![0i16, 0, 0, 0, 0, 1] && v.os() == seq![0i16, 0, 0, 0, 0, 0] && v.diffs() == seq![
            0i16,
            0,
            0,
            0,
            0,
            1i16,
        ] && v.won() == 1
}

impl GameThreats {
    pub closed spec fn xs(self) -> Seq<i16> {
        self.threats_x@
    }

    /// Two measures with the same counts and the same winner are equal.
    pub proof fn lemma_same_views(a: GameThreats, b: GameThreats)
        requires
            a.xs() == b.xs(),
            a.os() == b.os(),
            a.diffs() == b.diffs(),
            a.won() == b.won(),
        ensures
            a == b,
    {
        broadcast use vstd::array::group_array_axioms;

        assert forall|i: int| 0 <= i < WIN_LEN implies a.threats_x[i] == b.threats_x[i] by {
            assert(a.threats_x@[i] == b.threats_x@[i]);
        }
        assert forall|i: int| 0 <= i < WIN_LEN implies a.threats_o[i] == b.threats_o[i] by {
            assert(a.threats_o@[i] == b.threats_o@[i]);
        }
        assert forall|i: int| 0 <= i < WIN_LEN implies a.threats_diff[i] == b.threats_diff[i] by {
            assert(a.threats_diff@[i] == b.threats_diff@[i]);
        }
        assert(a.threats_x =~= b.threats_x);
        assert(a.threats_o =~= b.threats_o);
        assert(a.threats_diff =~= b.threats_diff);
    }

    pub closed spec fn os(self) -> Seq<i16> {
        self.threats_o@
    }

    pub closed spec fn diffs(self) -> Seq<i16> {
        self.threats_diff@
    }

    pub closed spec fn won(self) -> i16 {
        self.won_by
    }

    pub open spec fn line_applied(self, after: GameThreats, line: Seq<Tile>, mult: i16) -> bool {
        &&& after.xs().len() == WIN_LEN && after.os().len() == WIN_LEN
        &&& forall|k: int|
            0 <= k < WIN_LEN ==> after.xs()[k] == wrap16(self.xs()[k] + mult * centered_threats(line, Tile::X, k))
                && after.os()[k] == wrap16(self.os()[k] + mult * centered_threats(line, Tile::O, k))
        &&& after.diffs() == self.diffs()
        &&& after.won() == self.won()
    }

    /// Adds `mult` to the count of each threat among the windows that hold the
    /// middle tile of `line`, the counts wrapping around in `i16`.
    fn on_line(&mut self, line: &[Tile; LINE_LEN], mult: i16)
        ensures
            old(self).line_applied(*final(self), line@, mult),
    {
        let ghost s = line@;
        let mut cnt_x: usize = 0;
        let mut cnt_o: usize = 0;
        let mut j: usize = 0;
        while j < WIN_LEN - 1
            invariant
                j <= WIN_LEN - 1,
                s == line@,
                s.len() == 2 * WIN_LEN - 1,
                cnt_x == count_tile(s.subrange(0, j as int), Tile::X),
                cnt_o == count_tile(s.subrange(0, j as int), Tile::O),
            decreases WIN_LEN - 1 - j,
        {
            proof {
                lemma_count_push(s, 0, j as int, Tile::X);
                lemma_count_push(s, 0, j as int, Tile::O);
                lemma_count_bound(s.subrange(0, j as int), Tile::X);
            }
            match line[j] {
                Tile::Empty => {},
                Tile::X => cnt_x += 1,
                Tile::O => cnt_o += 1,
            }
            j += 1;
        }
        let ghost old_self = *self;
        proof {
            assert forall|k: int| 0 <= k < WIN_LEN implies self.threats_x[k] == wrap16(old_self.threats_x[k] + mult * line_threats(
                s, Tile::X, k, 0)) && self.threats_o[k] == wrap16(old_self.threats_o[k] + mult * line_threats(s, Tile::O, k, 0)) by {
                lemma_wrap16_range(old_self.threats_x[k] as int);
                lemma_wrap16_range(old_self.threats_o[k] as int);
            }
        }
        let mut i: usize = WIN_LEN - 1;
        while i < 2 * WIN_LEN - 1
            invariant
                WIN_LEN - 1 <= i <= 2 * WIN_LEN - 1,
                s == line@,
                s.len() == 2 * WIN_LEN - 1,
                old_self == *old(self),
                cnt_x == count_tile(s.subrange(i - (WIN_LEN - 1), i as int), Tile::X),
                cnt_o == count_tile(s.subrange(i - (WIN_LEN - 1), i as int), Tile::O),
                self.threats_diff == old_self.threats_diff,
                self.won_by == old_self.won_by,
                forall|k: int|
                    0 <= k < WIN_LEN ==> self.threats_x[k] == wrap16(old_self.threats_x[k] + mult * line_threats(
                        s,
                        Tile::X,
                        k,
                        i - (WIN_LEN - 1),
                    )) && self.threats_o[k] == wrap16(old_self.threats_o[k] + mult * line_threats(
                        s,
                        Tile::O,
                        k,
                        i - (WIN_LEN - 1),
                    )),
            decreases 2 * WIN_LEN - 1 - i,
        {
            let ghost w = i - (WIN_LEN - 1);
            proof {
                lemma_count_push(s, w, i as int, Tile::X);
                lemma_count_push(s, w, i as int, Tile::O);
                lemma_count_bound(s.subrange(w, i as int), Tile::X);
                lemma_count_bound(s.subrange(w, i as int), Tile::O);
            }
            match line[i] {
                Tile::Empty => {},
                Tile::X => cnt_x += 1,
                Tile::O => cnt_o += 1,
            }
            proof {
                assert(window(s, w) == s.subrange(w, i + 1));
                lemma_count_bound(window(s, w), Tile::X);
            }
            if cnt_x != 0 && cnt_o == 0 {
                let k = cnt_x - 1;
                proof {
                    assert(is_threat(window(s, w), Tile::X, k as int));
                    assert(line_threats(s, Tile::X, k as int, w + 1) == line_threats(s, Tile::X, k as int, w) + 1);
                    assert(mult * line_threats(s, Tile::X, k as int, w + 1) == mult * line_threats(s, Tile::X, k as int, w) + mult) by (nonlinear_arith)
                        requires line_threats(s, Tile::X, k as int, w + 1) == line_threats(s, Tile::X, k as int, w) + 1;
                    lemma_wrapping_add(self.threats_x[k as int], mult);
                    lemma_wrap16_add(old_self.threats_x[k as int] + mult * line_threats(s, Tile::X, k as int, w), mult as int);
                }
                self.threats_x[k] = self.threats_x[k].wrapping_add(mult);
            }
            if cnt_x == 0 && cnt_o != 0 {
                let k = cnt_o - 1;
                proof {
                    assert(is_threat(window(s, w), Tile::O, k as int));
                    assert(line_threats(s, Tile::O, k as int, w + 1) == line_threats(s, Tile::O, k as int, w) + 1);
                    assert(mult * line_threats(s, Tile::O, k as int, w + 1) == mult * line_threats(s, Tile::O, k as int, w) + mult) by (nonlinear_arith)
                        requires line_threats(s, Tile::O, k as int, w + 1) == line_threats(s, Tile::O, k as int, w) + 1;
                    lemma_wrapping_add(self.threats_o[k as int], mult);
                    lemma_wrap16_add(old_self.threats_o[k as int] + mult * line_threats(s, Tile::O, k as int, w), mult as int);
                }
                self.threats_o[k] = self.threats_o[k].wrapping_add(mult);
            }
            proof {
                lemma_count_pop(s, w, i + 1, Tile::X);
                lemma_count_pop(s, w, i + 1, Tile::O);
            }
            match line[i + 1 - WIN_LEN] {
                Tile::Empty => {},
                Tile::X => cnt_x -= 1,
                Tile::O => cnt_o -= 1,
            }
            i += 1;
        }
    }

    /// The key by which measures are ordered: the winner first, then the
    /// differences of the counts from the longest threats down.
    pub open spec fn key(self) -> Seq<int> {
        seq![
            self.won() as int,
            self.diffs()[5] as int,
            self.diffs()[4] as int,
            self.diffs()[3] as int,
            self.diffs()[2] as int,
            self.diffs()[1] as int,
            self.diffs()[0] as int,
        ]
    }

    /// Records the differences of the counts of X and O and the winner that
    /// they show, `step` being the number of moves played; the arithmetic
    /// wraps around in `i16`.
    pub fn update_done(&mut self, step: u64)
        ensures
            final(self).xs() == old(self).xs(),
            final(self).os() == old(self).os(),
            final(self).diffs().len() == WIN_LEN,
            forall|i: int| 0 <= i < WIN_LEN ==> #[trigger] final(self).diffs()[i] == wrap16(old(self).xs()[i] - old(self).os()[i]),
            final(self).won() == wrap16(winner_after(old(self).xs(), old(self).os(), step)),
            step % 2 == 1 && old(self).xs()[4] == 0 && old(self).xs()[5] == 0 && old(self).os()[4] == 0 && old(
                self,
            ).os()[5] == 0 ==> final(self).won() == 0,
    {
        let ghost old_self = *self;
        let mut i: usize = WIN_LEN;
        while i > 0
            invariant
                i <= WIN_LEN,
                self.threats_x == old_self.threats_x,
                self.threats_o == old_self.threats_o,
                self.won_by == old_self.won_by,
                forall|j: int| i <= j < WIN_LEN ==> #[trigger] self.threats_diff[j] == wrap16(self.threats_x[j] - self.threats_o[j]),
            decreases i,
        {
            i -= 1;
            proof {
                lemma_wrapping_sub(self.threats_x[i as int], self.threats_o[i as int]);
            }
            self.threats_diff[i] = self.threats_x[i].wrapping_sub(self.threats_o[i]);
        }
        proof {
            let xs = old_self.xs();
            let os = old_self.os();
            if step % 2 == 1 && xs[4] == 0 && xs[5] == 0 && os[4] == 0 && os[5] == 0 {
                lemma_four_needs_two_stones(xs, os, step);
                lemma_wrap16_range(0);
            }
            lemma_wrapping_sub(0, os[3]);
            lemma_wrapping_sub(0, os[4]);
            lemma_wrapping_sub(0, os[5]);
            lemma_wrap16_range(-os[3]);
            lemma_wrap16_range(-os[4]);
            lemma_wrap16_range(-os[5]);
            lemma_wrap16_range(xs[3] as int);
            lemma_wrap16_range(xs[4] as int);
            lemma_wrap16_range(xs[5] as int);
            lemma_wrap16_zero(-os[3]);
            lemma_wrap16_zero(-os[4]);
            lemma_wrap16_zero(-os[5]);
        }
        if step & 2 == 0 {
            if step & 1 == 0 {
                let v = 0i16.wrapping_sub(self.threats_o[WIN_LEN - 3]);
                if v != 0 {
                    self.won_by = v;
                    return;
                }
            }
            let v = 0i16.wrapping_sub(self.threats_o[WIN_LEN - 2]);
            if v != 0 {
                self.won_by = v;
                return;
            }
            let v = 0i16.wrapping_sub(self.threats_o[WIN_LEN - 1]);
            if v != 0 {
                self.won_by = v;
                return;
            }
            self.won_by = self.threats_x[WIN_LEN - 1];
        } else {
            if step & 1 == 0 {
                let v = self.threats_x[WIN_LEN - 3];
                if v != 0 {
                    self.won_by = v;
                    return;
                }
            }
            let v = self.threats_x[WIN_LEN - 2];
            if v != 0 {
                self.won_by = v;
                return;
            }
            let v = self.threats_x[WIN_LEN - 1];
            if v != 0 {
                self.won_by = v;
                return;
            }
            self.won_by = 0i16.wrapping_sub(self.threats_o[WIN_LEN - 1]);
        }
    }

    proof fn lemma_key_entry(self, i: usize)
        requires
            i < WIN_LEN,
        ensures
            self.key()[6 - i] == self.threats_diff[i as int],
            self.key().len() == 7,
    {
    }

    /// Measures with different winners compare as their winners do.
    pub proof fn lemma_order_by_winner(a: GameThreats, b: GameThreats)
        ensures
            a.won() < b.won() ==> lex_compare(a.key(), b.key()) == -1,
            a.won() > b.won() ==> lex_compare(a.key(), b.key()) == 1,
    {
    }

    /// Measures with the same winner compare by the differences of their
    /// counts, from the longest threats down: the first difference that
    /// differs decides.
    pub proof fn lemma_order_by_diffs(a: GameThreats, b: GameThreats, n: int)
        requires
            a.won() == b.won(),
            0 <= n < WIN_LEN,
            forall|j: int| n < j < WIN_LEN ==> a.diffs()[j] == b.diffs()[j],
            a.diffs()[n] != b.diffs()[n],
        ensures
            a.diffs()[n] < b.diffs()[n] ==> lex_compare(a.key(), b.key()) == -1,
            a.diffs()[n] > b.diffs()[n] ==> lex_compare(a.key(), b.key()) == 1,
    {
        let ka = a.key();
        let kb = b.key();
        let p = 6 - n;
        assert forall|i: int| 0 <= i < p implies ka[i] == kb[i] by {
            if i > 0 {
                assert(ka[i] == a.diffs()[6 - i]);
                assert(kb[i] == b.diffs()[6 - i]);
            }
        }
        lemma_lex_prefix(ka, kb, p);
        assert(ka.skip(p)[0] == a.diffs()[n]);
        assert(kb.skip(p)[0] == b.diffs()[n]);
    }

    /// Orders measures by `key`, lexicographically: first the winner, then the
    /// differences of the counts from the longest threats down.
    pub fn cmp(&self, other: &Self) -> (r: Ordering)
        ensures
            (r == Ordering::Less) == (lex_compare(self.key(), other.key()) == -1),
            (r == Ordering::Equal) == (lex_compare(self.key(), other.key()) == 0),
            (r == Ordering::Greater) == (lex_compare(self.key(), other.key()) == 1),
            self.won() < other.won() ==> r == Ordering::Less,
            self.won() > other.won() ==> r == Ordering::Greater,
    {
        proof {
            GameThreats::lemma_order_by_winner(*self, *other);
        }
        let ghost ka = self.key();
        let ghost kb = other.key();
        proof {
            assert(ka.skip(0) =~= ka);
            assert(kb.skip(0) =~= kb);
        }
        if self.won_by < other.won_by {
            return Ordering::Less;
        }
        if self.won_by > other.won_by {
            return Ordering::Greater;
        }
        proof {
            lemma_lex_step(ka, kb, 0);
        }
        let mut i: usize = WIN_LEN;
        while i > 0
            invariant
                i <= WIN_LEN,
                ka == self.key(),
                kb == other.key(),
                lex_compare(ka, kb) == lex_compare(ka.skip(7 - i), kb.skip(7 - i)),
            decreases i,
        {
            i -= 1;
            let ghost n = 6 - i;
            assert(ka.skip(n)[0] == ka[n]);
            assert(kb.skip(n)[0] == kb[n]);
            proof {
                self.lemma_key_entry(i);
                other.lemma_key_entry(i);
            }
            if self.threats_diff[i] < other.threats_diff[i] {
                return Ordering::Less;
            }
            if self.threats_diff[i] > other.threats_diff[i] {
                return Ordering::Greater;
            }
            proof {
                lemma_lex_step(ka, kb, n);
            }
        }
        proof {
            assert(ka.skip(7).len() == 0);
        }
        Ordering::Equal
    }
}

impl GameThreats {
    /// `cmp`, as a partial order that orders every two measures.
    pub fn partial_cmp(&self, other: &Self) -> (r: Option<Ordering>)
        ensures
            (r == Some(Ordering::Less)) == (lex_compare(self.key(), other.key()) == -1),
            (r == Some(Ordering::Equal)) == (lex_compare(self.key(), other.key()) == 0),
            (r == Some(Ordering::Greater)) == (lex_compare(self.key(), other.key()) == 1),
    {
        Some(self.cmp(other))
    }
}

impl Heuristic for GameThreats {
    open spec fn winner(&self) -> int {
        self.won() as int
    }

    fn new() -> (r: GameThreats)
        ensures
            r.xs() == seq![0i16, 0, 0, 0, 0, 0],
            r.os() == seq![0i16, 0, 0, 0, 0, 0],
            r.diffs() == seq![0i16, 0, 0, 0, 0, 0],
            r.won() == 0,
    {
        let r = GameThreats {
            threats_x: [0i16; WIN_LEN],
            threats_o: [0i16; WIN_LEN],
            threats_diff: [0i16; WIN_LEN],
            won_by: 0,
        };
        proof {
            assert(r.xs() =~= seq![0i16, 0, 0, 0, 0, 0]);
            assert(r.os() =~= seq![0i16, 0, 0, 0, 0, 0]);
            assert(r.diffs() =~= seq![0i16, 0, 0, 0, 0, 0]);
        }
        r
    }

    fn new_max() -> (r: GameThreats)
        ensures
            r.xs() == seq![0i16, 0, 0, 0, 0, 1],
            r.os() == seq![0i16, 0, 0, 0, 0, 0],
            r.diffs() == seq![0i16, 0, 0, 0, 0, 1],
            r.won() == 1,
            r == highest_measure(),
    {
        let mut new_threats = GameThreats::new();
        new_threats.threats_x[WIN_LEN - 1] = 1;
        new_threats.threats_diff[WIN_LEN - 1] = 1;
        new_threats.won_by = 1;
        proof {
            assert(new_threats.xs() =~= seq![0i16, 0, 0, 0, 0, 1]);
            assert(new_threats.diffs() =~= seq![0i16, 0, 0, 0, 0, 1]);
            assert(new_threats.os() =~= seq![0i16, 0, 0, 0, 0, 0]);
            GameThreats::lemma_same_views(new_threats, highest_measure());
        }
        new_threats
    }

    fn new_min() -> (r: GameThreats)
        ensures
            r.xs() == seq![0i16, 0, 0, 0, 0, 0],
            r.os() == seq![0i16, 0, 0, 0, 0, 1],
            r.diffs() == seq![0i16, 0, 0, 0, 0, -1i16],
            r.won() == -1,
            r == lowest_measure(),
    {
        let mut new_threats = GameThreats::new();
        new_threats.threats_o[WIN_LEN - 1] = 1;
        new_threats.threats_diff[WIN_LEN - 1] = -1;
        new_threats.won_by = -1;
        proof {
            assert(new_threats.os() =~= seq![0i16, 0, 0, 0, 0, 1]);
            assert(new_threats.diffs() =~= seq![0i16, 0, 0, 0, 0, -1i16]);
            assert(new_threats.xs() =~= seq![0i16, 0, 0, 0, 0, 0]);
            GameThreats::lemma_same_views(new_threats, lowest_measure());
        }
        new_threats
    }

    fn get_extra(&self) -> (r: i64)
        ensures
            r == WIN_LEN - 1,
    {
        (WIN_LEN - 1) as i64
    }

    fn is_critical(&self) -> (r: bool)
        ensures
            r == (self.diffs()[5] != 0 || self.diffs()[4] != 0 || self.diffs()[3] != 0),
    {
        self.threats_diff[WIN_LEN - 1] != 0 || self.threats_diff[WIN_LEN - 2] != 0
            || self.threats_diff[WIN_LEN - 3] != 0
    }

    fn won_by(&self) -> (r: i16) {
        self.won_by
    }

    fn update(&mut self, map: &mut QuadRoot, x: i64, y: i64, mult: i16)
        ensures
            final(self).xs().len() == WIN_LEN,
            final(self).os().len() == WIN_LEN,
            forall|k: int|
                0 <= k < WIN_LEN ==> #[trigger] final(self).xs()[k] == wrap16(old(self).xs()[k] + mult * point_threats(
                    *old(map),
                    x as int,
                    y as int,
                    Tile::X,
                    k,
                )),
            forall|k: int|
                0 <= k < WIN_LEN ==> #[trigger] final(self).os()[k] == wrap16(old(self).os()[k] + mult * point_threats(
                    *old(map),
                    x as int,
                    y as int,
                    Tile::O,
                    k,
                )),
            final(self).diffs() == old(self).diffs(),
            final(self).won() == old(self).won(),
    {
        let ghost m = *map;
        let ghost s0 = *self;
        let ghost xi = x as int;
        let ghost yi = y as int;
        let offset = WIN_LEN as i64 - 1;
        let arr = read_line(map, x - offset, y, 1, 0);
        proof {
            assert(arr@ =~= line_h(m, xi, yi));
        }
        self.on_line(&arr, mult);
        let ghost s1 = *self;
        let arr = read_line(map, x, y - offset, 0, 1);
        proof {
            assert(arr@ =~= line_v(m, xi, yi));
        }
        self.on_line(&arr, mult);
        let ghost s2 = *self;
        let arr = read_line(map, x - offset, y - offset, 1, 1);
        proof {
            assert(arr@ =~= line_d(m, xi, yi));
        }
        self.on_line(&arr, mult);
        proof {
            assert forall|k: int| 0 <= k < WIN_LEN implies {
                &&& #[trigger] self.xs()[k] == wrap16(s0.xs()[k] + mult * point_threats(m, xi, yi, Tile::X, k))
                &&& self.os()[k] == wrap16(s0.os()[k] + mult * point_threats(m, xi, yi, Tile::O, k))
            } by {
                let hx = centered_threats(line_h(m, xi, yi), Tile::X, k);
                let vx = centered_threats(line_v(m, xi, yi), Tile::X, k);
                let dx = centered_threats(line_d(m, xi, yi), Tile::X, k);
                let ho = centered_threats(line_h(m, xi, yi), Tile::O, k);
                let vo = centered_threats(line_v(m, xi, yi), Tile::O, k);
                let d_o = centered_threats(line_d(m, xi, yi), Tile::O, k);
                lemma_wrap16_add(s0.xs()[k] + mult * hx, mult * vx);
                lemma_wrap16_add(s0.xs()[k] + mult * hx + mult * vx, mult * dx);
                lemma_wrap16_add(s0.os()[k] + mult * ho, mult * vo);
                lemma_wrap16_add(s0.os()[k] + mult * ho + mult * vo, mult * d_o);
                assert(mult * (hx + vx + dx) == mult * hx + mult * vx + mult * dx) by (nonlinear_arith);
                assert(mult * (ho + vo + d_o) == mult * ho + mult * vo + mult * d_o) by (nonlinear_arith);
            }
        }
    }
}

/// Counting the threats through (x, y) of a board `mult` times and then
/// `-mult` times on the same board gives back the counts.
pub proof fn lemma_update_cancels(
    g0: GameThreats,
    g1: GameThreats,
    g2: GameThreats,
    board: QuadRoot,
    x: int,
    y: int,
    mult: i16,
)
    requires
        mult > i16::MIN,
        forall|k: int|
            0 <= k < WIN_LEN ==> #[trigger] g1.xs()[k] == wrap16(g0.xs()[k] + mult * point_threats(board, x, y, Tile::X, k))
                && g1.os()[k] == wrap16(g0.os()[k] + mult * point_threats(board, x, y, Tile::O, k)),
        forall|k: int|
            0 <= k < WIN_LEN ==> #[trigger] g2.xs()[k] == wrap16(g1.xs()[k] + (-mult) * point_threats(board, x, y, Tile::X, k))
                && g2.os()[k] == wrap16(g1.os()[k] + (-mult) * point_threats(board, x, y, Tile::O, k)),
    ensures
        g2.xs() == g0.xs(),
        g2.os() == g0.os(),
{
    assert forall|k: int| 0 <= k < WIN_LEN implies #[trigger] g2.xs()[k] == g0.xs()[k] && g2.os()[k] == g0.os()[k] by {
        let px = point_threats(board, x, y, Tile::X, k);
        let po = point_threats(board, x, y, Tile::O, k);
        lemma_wrap16_add(g0.xs()[k] + mult * px, (-mult) * px);
        lemma_wrap16_add(g0.os()[k] + mult * po, (-mult) * po);
        assert(mult * px + (-mult) * px == 0) by (nonlinear_arith);
        assert(mult * po + (-mult) * po == 0) by (nonlinear_arith);
        lemma_wrap16_range(g0.xs()[k] as int);
        lemma_wrap16_range(g0.os()[k] as int);
    }
    assert forall|k: int| 0 <= k < WIN_LEN implies #[trigger] g2.os()[k] == g0.os()[k] by {
        assert(g2.xs()[k] == g0.xs()[k]);
    }
    assert(g2.xs() =~= g0.xs());
    assert(g2.os() =~= g0.os());
}

} // verus!
