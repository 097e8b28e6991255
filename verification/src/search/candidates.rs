use vstd::prelude::*;

verus! {

broadcast use vstd::seq_lib::group_to_multiset_ensures;

/// Lexicographic order on cells: by x, then by y.
pub open spec fn cell_le(a: (i64, i64), b: (i64, i64)) -> bool {
    a.0 < b.0 || (a.0 == b.0 && a.1 <= b.1)
}

/// Strict lexicographic order on cells.
pub open spec fn cell_lt(a: (i64, i64), b: (i64, i64)) -> bool {
    a.0 < b.0 || (a.0 == b.0 && a.1 < b.1)
}

/// The cells are in lexicographic order.
pub open spec fn cells_sorted(s: Seq<(i64, i64)>) -> bool {
    forall|a: int, b: int| 0 <= a < b < s.len() ==> cell_le(#[trigger] s[a], #[trigger] s[b])
}

/// The cells are in strictly increasing lexicographic order.
pub open spec fn cells_increasing(s: Seq<(i64, i64)>) -> bool {
    forall|a: int, b: int| 0 <= a < b < s.len() ==> cell_lt(#[trigger] s[a], #[trigger] s[b])
}

/// Sorts cells lexicographically, by x then by y.
pub fn sort_cells(v: &mut Vec<(i64, i64)>)
    ensures
        cells_sorted(final(v)@),
        final(v)@.to_multiset() == old(v)@.to_multiset(),
        final(v)@.len() == old(v)@.len(),
{
    let n = v.len();
    if n == 0 {
        return;
    }
    let mut i: usize = 1;
    while i < n
        invariant
            1 <= i <= n,
            n == v.len(),
            cells_sorted(v@.subrange(0, i as int)),
            v@.to_multiset() == old(v)@.to_multiset(),
        decreases n - i,
    {
        let mut j: usize = i;
        proof {
            assert forall|a: int, b: int| 0 <= a < b < j implies cell_le(#[trigger] v@[a], #[trigger] v@[b]) by {
                assert(v@.subrange(0, i as int)[a] == v@[a]);
                assert(v@.subrange(0, i as int)[b] == v@[b]);
            }
        }
        while j > 0 && (v[j].0 < v[j - 1].0 || (v[j].0 == v[j - 1].0 && v[j].1 < v[j - 1].1))
            invariant
                0 <= j <= i < n,
                n == v.len(),
                v@.to_multiset() == old(v)@.to_multiset(),
                forall|a: int, b: int| 0 <= a < b < j ==> cell_le(#[trigger] v@[a], #[trigger] v@[b]),
                forall|a: int, b: int| j < a < b <= i ==> cell_le(#[trigger] v@[a], #[trigger] v@[b]),
                forall|a: int, b: int| 0 <= a < j && j < b <= i ==> cell_le(#[trigger] v@[a], #[trigger] v@[b]),
                forall|b: int| j < b <= i ==> cell_lt(v@[j as int], #[trigger] v@[b]),
            decreases j,
        {
            let a = v[j - 1];
            let b = v[j];
            let ghost s0 = v@;
            v[j - 1] = b;
            v[j] = a;
            proof {
                assert(v@ == s0.update(j - 1, b).update(j as int, a));
                vstd::seq_lib::to_multiset_update(s0, j - 1, b);
                vstd::seq_lib::to_multiset_update(s0.update(j - 1, b), j as int, a);
                assert(s0.to_multiset().insert(b).remove(a).insert(a).remove(b) =~= s0.to_multiset());
            }
            j -= 1;
        }
        proof {
            assert forall|a: int, b: int| 0 <= a < b < i + 1 implies cell_le(
                #[trigger] v@.subrange(0, i + 1)[a],
                #[trigger] v@.subrange(0, i + 1)[b],
            ) by {
                if b == j && a < j {
                    assert(cell_le(v@[a], v@[j - 1]) || a == j - 1);
                }
            }
        }
        i += 1;
    }
    proof {
        assert(v@.subrange(0, n as int) =~= v@);
    }
}

/// Cell `c` lies within distance `d` of cell `u` on the hexagonal grid whose
/// lines run along x, along y and along x = y.
pub open spec fn near(c: (i64, i64), u: (i64, i64), d: int) -> bool {
    let dx = c.0 - u.0;
    let dy = c.1 - u.1;
    &&& -d <= dx <= d
    &&& -d <= dy <= d
    &&& -d <= dy - dx <= d
}

/// Cell `c` lies within distance `d` of some cell of `s`.
pub open spec fn near_any(s: Seq<(i64, i64)>, c: (i64, i64), d: int) -> bool {
    exists|i: int| 0 <= i < s.len() && near(c, #[trigger] s[i], d)
}

/// Some cell of `s` that appears twice in `s` lies on row `c.0` below `c`.
pub open spec fn repeated_below(s: Seq<(i64, i64)>, c: (i64, i64)) -> bool {
    exists|i: int, j: int|
        0 <= i < j < s.len() && #[trigger] s[i] == #[trigger] s[j] && s[i].0 == c.0 && s[i].1 < c.1
}

/// Cell `c` is offered as a move near the played cells `s`: it lies within
/// distance `d` of a played cell and is not played itself, unless a cell
/// played twice lies on its row below it.
pub open spec fn is_candidate(s: Seq<(i64, i64)>, d: int, c: (i64, i64)) -> bool {
    near_any(s, c, d) && (!s.contains(c) || repeated_below(s, c))
}

/// The y-range of the cells of row `x` within distance `d` of cell `u`, where
/// `u` lies within `d` rows of `x`.
pub open spec fn interval_of(u: (i64, i64), x: int, d: int) -> (int, int) {
    let dx = x - u.0;
    (u.1 + if dx > 0 {
        dx - d
    } else {
        -d
    }, u.1 + if dx < 0 {
        dx + d
    } else {
        d
    })
}

/// Some interval of `t` holds `y`.
pub open spec fn in_union(t: Seq<(i64, i64)>, y: int) -> bool {
    exists|q: int| 0 <= q < t.len() && (#[trigger] t[q]).0 <= y <= t[q].1
}

/// Two copies of `p` in `s` are two entries of the multiset of `s`.
pub proof fn lemma_two_copies(s: Seq<(i64, i64)>, p: (i64, i64))
    ensures
        s.to_multiset().count(p) >= 2 <==> exists|i: int, j: int|
            0 <= i < j < s.len() && #[trigger] s[i] == p && #[trigger] s[j] == p,
    decreases s.len(),
{
    if s.len() == 0 {
    } else {
        let t = s.drop_last();
        lemma_two_copies(t, p);
        assert(t.push(s.last()) =~= s);
        assert(s.to_multiset() =~= t.to_multiset().insert(s.last()));
        if s.to_multiset().count(p) >= 2 {
            if t.to_multiset().count(p) >= 2 {
                let (i, j) = choose|i: int, j: int| 0 <= i < j < t.len() && #[trigger] t[i] == p && #[trigger] t[j] == p;
                assert(s[i] == p && s[j] == p);
            } else {
                assert(s.last() == p);
                assert(t.to_multiset().count(p) >= 1);
                vstd::seq_lib::to_multiset_contains(t, p);
                assert(t.contains(p));
                let i = choose|i: int| 0 <= i < t.len() && t[i] == p;
                assert(s[i] == p && s[s.len() - 1] == p);
            }
        }
        if exists|i: int, j: int| 0 <= i < j < s.len() && #[trigger] s[i] == p && #[trigger] s[j] == p {
            let (i, j) = choose|i: int, j: int| 0 <= i < j < s.len() && #[trigger] s[i] == p && #[trigger] s[j] == p;
            if j < s.len() - 1 {
                assert(t[i] == p && t[j] == p);
            } else {
                assert(t[i] == p);
                assert(t.contains(p));
                vstd::seq_lib::to_multiset_contains(t, p);
                assert(t.to_multiset().count(p) >= 1);
            }
        }
    }
}

/// Whether a cell is offered depends only on the multiset of the played cells.
pub proof fn lemma_candidate_permutation(s1: Seq<(i64, i64)>, s2: Seq<(i64, i64)>, d: int, c: (i64, i64))
    requires
        s1.to_multiset() == s2.to_multiset(),
    ensures
        is_candidate(s1, d, c) == is_candidate(s2, d, c),
{
    lemma_candidate_permutation_one(s1, s2, d, c);
    lemma_candidate_permutation_one(s2, s1, d, c);
}

proof fn lemma_candidate_permutation_one(s1: Seq<(i64, i64)>, s2: Seq<(i64, i64)>, d: int, c: (i64, i64))
    requires
        s1.to_multiset() == s2.to_multiset(),
    ensures
        is_candidate(s1, d, c) ==> is_candidate(s2, d, c),
{
    if is_candidate(s1, d, c) {
        let i = choose|i: int| 0 <= i < s1.len() && near(c, #[trigger] s1[i], d);
        assert(s1.contains(s1[i]));
        vstd::seq_lib::to_multiset_contains(s1, s1[i]);
        vstd::seq_lib::to_multiset_contains(s2, s1[i]);
        assert(s2.contains(s1[i]));
        let j = choose|j: int| 0 <= j < s2.len() && s2[j] == s1[i];
        assert(near(c, s2[j], d));
        vstd::seq_lib::to_multiset_contains(s1, c);
        vstd::seq_lib::to_multiset_contains(s2, c);
        if s2.contains(c) {
            assert(s1.contains(c));
            let (a, b) = choose|a: int, b: int|
                0 <= a < b < s1.len() && #[trigger] s1[a] == #[trigger] s1[b] && s1[a].0 == c.0 && s1[a].1 < c.1;
            let p = s1[a];
            lemma_two_copies(s1, p);
            lemma_two_copies(s2, p);
            let (a2, b2) = choose|a2: int, b2: int| 0 <= a2 < b2 < s2.len() && #[trigger] s2[a2] == p && #[trigger] s2[b2] == p;
            assert(s2[a2] == s2[b2] && s2[a2].0 == c.0 && s2[a2].1 < c.1);
        }
    }
}

/// In sorted cells, two copies of a cell stand side by side.
pub proof fn lemma_sorted_repeat_adjacent(s: Seq<(i64, i64)>, c: (i64, i64))
    requires
        cells_sorted(s),
        repeated_below(s, c),
    ensures
        exists|i: int| 0 <= i && i + 1 < s.len() && #[trigger] s[i] == s[i + 1] && s[i].0 == c.0 && s[i].1 < c.1,
{
    let (i, j) = choose|i: int, j: int|
        0 <= i < j < s.len() && #[trigger] s[i] == #[trigger] s[j] && s[i].0 == c.0 && s[i].1 < c.1;
    assert(cell_le(s[i], s[i + 1]));
    if i + 1 < j {
        assert(cell_le(s[i + 1], s[j]));
    }
    assert(s[i] == s[i + 1]);
}

/// Scan state of row `x` at column `y`: `next` points past the played cells
/// below (x, y); either at the first played cell at or after (x, y), with no
/// cell played twice below (x, y) on the row, or at the second copy of a cell
/// played twice below (x, y) on the row.
pub open spec fn row_state(s: Seq<(i64, i64)>, x: int, y: int, next: int) -> bool {
    &&& 0 <= next <= s.len()
    &&& next < s.len() ==> s[next].0 >= x
    &&& forall|j: int| 0 <= j < next ==> (#[trigger] s[j]).0 < x || (s[j].0 == x && s[j].1 < y)
    &&& row_fresh(s, x, y, next) || row_stuck(s, x, y, next)
    &&& row_fresh(s, x, y, next) ==> forall|i: int|
        0 <= i && i + 1 < s.len() && #[trigger] s[i] == s[i + 1] && s[i].0 == x ==> s[i].1 >= y
}

pub open spec fn row_fresh(s: Seq<(i64, i64)>, x: int, y: int, next: int) -> bool {
    next == s.len() || s[next].0 > x || (s[next].0 == x && s[next].1 >= y)
}

pub open spec fn row_stuck(s: Seq<(i64, i64)>, x: int, y: int, next: int) -> bool {
    &&& 0 < next < s.len()
    &&& s[next].0 == x
    &&& s[next].1 < y
    &&& s[next - 1] == s[next]
}

/// The cells found so far, row by row up to (x, y): exactly the offered cells
/// before (x, y), in increasing order.
pub open spec fn found_state(found: Seq<(i64, i64)>, s: Seq<(i64, i64)>, d: int, x: int, y: int) -> bool {
    &&& cells_increasing(found)
    &&& forall|k: int| 0 <= k < found.len() ==> (#[trigger] found[k]).0 < x || (found[k].0 == x && found[k].1 < y)
    &&& forall|c: (i64, i64)|
        #[trigger] found.contains(c) == ((c.0 < x || (c.0 == x && c.1 < y)) && is_candidate(s, d, c))
}

/// Scanning cell (x, y), which lies near a played cell: a played cell that is
/// not repeated below is skipped, any other cell is found.
pub proof fn lemma_scan_step(found: Seq<(i64, i64)>, s: Seq<(i64, i64)>, d: int, x: i64, y: i64, next: int)
    requires
        cells_sorted(s),
        row_state(s, x as int, y as int, next),
        found_state(found, s, d, x as int, y as int),
        near_any(s, (x, y), d),
        y < i64::MAX,
    ensures
        next < s.len() && s[next] == (x, y) ==> {
            &&& row_state(s, x as int, y + 1, next + 1)
            &&& found_state(found, s, d, x as int, y + 1)
        },
        !(next < s.len() && s[next] == (x, y)) ==> {
            &&& row_state(s, x as int, y + 1, next)
            &&& found_state(found.push((x, y)), s, d, x as int, y + 1)
        },
{
    let c = (x, y);
    if next < s.len() && s[next] == c {
        assert(row_fresh(s, x as int, y as int, next));
        if repeated_below(s, c) {
            lemma_sorted_repeat_adjacent(s, c);
        }
        assert(s.contains(c));
        assert(!is_candidate(s, d, c));
        assert forall|j: int| 0 <= j < next + 1 implies (#[trigger] s[j]).0 < x || (s[j].0 == x && s[j].1 < y + 1) by {
        }
        if !row_stuck(s, x as int, y + 1, next + 1) {
            if next + 1 < s.len() {
                assert(cell_le(s[next], s[next + 1]));
            }
            assert forall|i: int|
                0 <= i && i + 1 < s.len() && #[trigger] s[i] == s[i + 1] && s[i].0 == x implies s[i].1 >= y + 1 by {
                if s[i].1 == y {
                    if i < next {
                        assert(s[i].0 < x || (s[i].0 == x && s[i].1 < y));
                    } else if i == next {
                    } else {
                        assert(cell_le(s[next + 1], s[i]));
                    }
                }
            }
        }
        assert forall|c2: (i64, i64)|
            #[trigger] found.contains(c2) == ((c2.0 < x || (c2.0 == x && c2.1 < y + 1)) && is_candidate(s, d, c2)) by {
        }
    } else {
        if row_fresh(s, x as int, y as int, next) {
            if s.contains(c) {
                let j = choose|j: int| 0 <= j < s.len() && s[j] == c;
                if j < next {
                } else if j > next {
                    assert(cell_le(s[next], s[j]));
                }
            }
            assert(!s.contains(c));
        } else {
            assert(s[next - 1] == s[next] && next - 1 < next);
            assert(repeated_below(s, c));
        }
        assert(is_candidate(s, d, c));
        let f2 = found.push(c);
        assert forall|a: int, b: int| 0 <= a < b < f2.len() implies cell_lt(#[trigger] f2[a], #[trigger] f2[b]) by {
            if b == found.len() {
                assert(found[a].0 < x || (found[a].0 == x && found[a].1 < y));
            }
        }
        assert forall|c2: (i64, i64)|
            #[trigger] f2.contains(c2) == ((c2.0 < x || (c2.0 == x && c2.1 < y + 1)) && is_candidate(s, d, c2)) by {
            if c2 == c {
                assert(f2[found.len() as int] == c);
            } else {
                if f2.contains(c2) {
                    let k = choose|k: int| 0 <= k < f2.len() && f2[k] == c2;
                    assert(found[k] == c2);
                }
                if found.contains(c2) {
                    let k = choose|k: int| 0 <= k < found.len() && found[k] == c2;
                    assert(f2[k] == c2);
                }
            }
        }
        assert forall|k: int| 0 <= k < f2.len() implies (#[trigger] f2[k]).0 < x || (f2[k].0 == x && f2[k].1 < y + 1) by {
            if k < found.len() {
                assert(f2[k] == found[k]);
            }
        }
        if row_fresh(s, x as int, y as int, next) {
            if next < s.len() && s[next].0 == x {
                assert(s[next].1 != y);
            }
            assert forall|i: int|
                0 <= i && i + 1 < s.len() && #[trigger] s[i] == s[i + 1] && s[i].0 == x implies s[i].1 >= y + 1 by {
                if s[i].1 == y {
                    assert(s.contains(c));
                }
            }
        }
    }
}

/// The intervals of the rows near x cover exactly the cells of row x near a
/// played cell.
pub proof fn lemma_row_union(
    s: Seq<(i64, i64)>,
    iv: Seq<(i64, i64)>,
    t: Seq<(i64, i64)>,
    d: int,
    x: i64,
    start: int,
    stop: int,
    bound: int,
)
    requires
        cells_sorted(s),
        0 <= d,
        0 <= start < stop <= s.len(),
        forall|i: int| 0 <= i < s.len() ==> -bound <= (#[trigger] s[i]).1 < bound,
        forall|j: int| 0 <= j < start ==> #[trigger] s[j].0 + d < x,
        stop == s.len() || s[stop].0 - d > x,
        forall|j: int| start <= j < stop ==> -d <= x - #[trigger] s[j].0 <= d,
        iv.len() == stop - start,
        forall|m: int| 0 <= m < stop - start ==> (#[trigger] iv[m]).0 == interval_of(s[start + m], x as int, d).0
            && iv[m].1 == interval_of(s[start + m], x as int, d).1,
        t.to_multiset() == iv.to_multiset(),
    ensures
        forall|yy: int| #[trigger] in_union(t, yy) == near_any(s, (x, yy as i64), d) || !(i64::MIN <= yy <= i64::MAX),
        forall|q: int| 0 <= q < t.len() ==> -bound - d <= (#[trigger] t[q]).0 <= t[q].1 < bound + d,
{
    assert forall|q: int| 0 <= q < t.len() implies -bound - d <= (#[trigger] t[q]).0 <= t[q].1 < bound + d by {
        assert(t.contains(t[q]));
        vstd::seq_lib::to_multiset_contains(t, t[q]);
        vstd::seq_lib::to_multiset_contains(iv, t[q]);
        let m = choose|m: int| 0 <= m < iv.len() && iv[m] == t[q];
        assert(-bound <= s[start + m].1 < bound);
    }
    assert forall|yy: int| #[trigger] in_union(t, yy) == near_any(s, (x, yy as i64), d) || !(i64::MIN <= yy <= i64::MAX) by {
        if i64::MIN <= yy <= i64::MAX {
            let c = (x, yy as i64);
            if in_union(t, yy) {
                let q = choose|q: int| 0 <= q < t.len() && (#[trigger] t[q]).0 <= yy <= t[q].1;
                assert(t.contains(t[q]));
                vstd::seq_lib::to_multiset_contains(t, t[q]);
                vstd::seq_lib::to_multiset_contains(iv, t[q]);
                let m = choose|m: int| 0 <= m < iv.len() && iv[m] == t[q];
                assert(near(c, s[start + m], d));
            }
            if near_any(s, c, d) {
                let i = choose|i: int| 0 <= i < s.len() && near(c, #[trigger] s[i], d);
                if i < start {
                    assert(s[i].0 + d < x);
                } else if i >= stop {
                    assert(cell_le(s[stop], s[i]) || i == stop);
                } else {
                    let m = i - start;
                    assert(iv[m].0 <= yy <= iv[m].1);
                    assert(iv.contains(iv[m]));
                    vstd::seq_lib::to_multiset_contains(iv, iv[m]);
                    vstd::seq_lib::to_multiset_contains(t, iv[m]);
                    let q = choose|q: int| 0 <= q < t.len() && t[q] == iv[m];
                    assert(t[q].0 <= yy <= t[q].1);
                }
            }
        }
    }
}

/// Skipping from column y to the start `y_min` of the next interval passes no
/// cell near a played cell.
pub proof fn lemma_row_skip(
    s: Seq<(i64, i64)>,
    t: Seq<(i64, i64)>,
    d: int,
    x: i64,
    y: i64,
    y_min: i64,
    k: int,
    next: int,
    found: Seq<(i64, i64)>,
)
    requires
        cells_sorted(s),
        cells_sorted(t),
        0 <= k < t.len(),
        t[k].0 == y_min,
        y < y_min,
        forall|q: int| 0 <= q < k ==> (#[trigger] t[q]).1 < y,
        forall|yy: int| #[trigger] in_union(t, yy) == near_any(s, (x, yy as i64), d) || !(i64::MIN <= yy <= i64::MAX),
        0 <= d,
        row_state(s, x as int, y as int, next),
        found_state(found, s, d, x as int, y as int),
    ensures
        row_state(s, x as int, y_min as int, next),
        found_state(found, s, d, x as int, y_min as int),
{
    assert forall|yy: i64| y <= yy < y_min implies !#[trigger] near_any(s, (x, yy), d) by {
        assert(in_union(t, yy as int) == near_any(s, (x, (yy as int) as i64), d));
        if in_union(t, yy as int) {
            let q = choose|q: int| 0 <= q < t.len() && (#[trigger] t[q]).0 <= yy <= t[q].1;
            if q > k {
                assert(cell_le(t[k], t[q]));
            }
        }
    }
    assert forall|c: (i64, i64)|
        #[trigger] found.contains(c) == ((c.0 < x || (c.0 == x && c.1 < y_min)) && is_candidate(s, d, c)) by {
        if c.0 == x && y <= c.1 < y_min {
            assert(!near_any(s, (x, c.1), d));
            assert(c == (x, c.1));
        }
    }
    if row_fresh(s, x as int, y as int, next) {
        if next < s.len() && s[next].0 == x && s[next].1 < y_min {
            assert(near(s[next], s[next], d));
            assert(near_any(s, (x, s[next].1), d));
        }
        assert forall|i: int|
            0 <= i && i + 1 < s.len() && #[trigger] s[i] == s[i + 1] && s[i].0 == x implies s[i].1 >= y_min by {
            if s[i].1 < y_min {
                assert(near(s[i], s[i], d));
                assert(near_any(s, (x, s[i].1), d));
            }
        }
    }
}

/// The smallest and greatest row, and the smallest and greatest column, of
/// the cells, where there are any.
pub fn cell_bounds(cells: &Vec<(i64, i64)>) -> (r: Option<(i64, i64, i64, i64)>)
    ensures
        (cells@.len() == 0) == (r is None),
        r matches Some(b) ==> {
            &&& forall|i: int|
                0 <= i < cells@.len() ==> b.0 <= (#[trigger] cells@[i]).0 <= b.1 && b.2 <= cells@[i].1 <= b.3
            &&& exists|i: int| 0 <= i < cells@.len() && (#[trigger] cells@[i]).0 == b.0
            &&& exists|i: int| 0 <= i < cells@.len() && (#[trigger] cells@[i]).0 == b.1
            &&& exists|i: int| 0 <= i < cells@.len() && (#[trigger] cells@[i]).1 == b.2
            &&& exists|i: int| 0 <= i < cells@.len() && (#[trigger] cells@[i]).1 == b.3
        },
{
    if cells.len() == 0 {
        return None;
    }
    let mut b = (cells[0].0, cells[0].0, cells[0].1, cells[0].1);
    let mut k: usize = 1;
    while k < cells.len()
        invariant
            1 <= k <= cells@.len(),
            forall|i: int| 0 <= i < k ==> b.0 <= (#[trigger] cells@[i]).0 <= b.1 && b.2 <= cells@[i].1 <= b.3,
            exists|i: int| 0 <= i < k && (#[trigger] cells@[i]).0 == b.0,
            exists|i: int| 0 <= i < k && (#[trigger] cells@[i]).0 == b.1,
            exists|i: int| 0 <= i < k && (#[trigger] cells@[i]).1 == b.2,
            exists|i: int| 0 <= i < k && (#[trigger] cells@[i]).1 == b.3,
        decreases cells@.len() - k,
    {
        let c = cells[k];
        if c.0 < b.0 {
            b.0 = c.0;
        }
        if c.0 > b.1 {
            b.1 = c.0;
        }
        if c.1 < b.2 {
            b.2 = c.1;
        }
        if c.1 > b.3 {
            b.3 = c.1;
        }
        k += 1;
    }
    Some(b)
}

} // verus!
