use vstd::prelude::*;
use vstd::arithmetic::power2::{pow2, lemma_pow2_pos, lemma_pow2_unfold, lemma2_to64};
use vstd::arithmetic::div_mod::{lemma_fundamental_div_mod_converse, lemma_fundamental_div_mod, lemma_mod_bound};
use vstd::bits::{lemma_usize_shr_is_div, lemma_usize_shl_is_mul, lemma_usize_pow2_no_overflow};
use crate::map::chunk::Chunk;
use crate::map::params::NODE_LOG_SIZE;

verus! {

/// Number of children along one side of a quad-tree node.
pub const NODE_SIZE: usize = 2;

/// Height of a quad-tree node: a node of level 1 holds chunks, one of level
/// `l + 1` holds nodes of level `l`.
pub type Level = usize;

/// A node of the quad tree that stores the chunks of the board.
pub struct QuadNode {
    pub chd: [[QuadChd; NODE_SIZE]; NODE_SIZE],
}

/// A child of a quad-tree node.
pub enum QuadChd {
    Empty,
    Leaf(Box<Chunk>),
    Node(Box<QuadNode>),
}

/// Whether a child of a node of level `lvl` fits the tree's shape.
pub open spec fn chd_wf(c: QuadChd, lvl: nat) -> bool
    decreases lvl, 0nat,
{
    match c {
        QuadChd::Empty => true,
        QuadChd::Leaf(_) => lvl == 1,
        QuadChd::Node(n) => lvl >= 2 && n.wf((lvl - 1) as nat),
    }
}

/// The chunk at chunk coordinates (x, y) below a child of a node of level `lvl`,
/// (x, y) taken relative to the child's corner.
pub open spec fn chd_chunk_at(c: QuadChd, lvl: nat, x: int, y: int) -> Option<Chunk>
    decreases lvl, 0nat,
{
    match c {
        QuadChd::Empty => None,
        QuadChd::Leaf(ch) => Some(*ch),
        QuadChd::Node(n) => if lvl >= 2 {
            n.chunk_at((lvl - 1) as nat, x, y)
        } else {
            None
        },
    }
}

/// Side, in chunks, of the square that a child of a node of level `lvl` covers.
pub open spec fn child_span(lvl: nat) -> int {
    pow2((lvl - 1) as nat) as int
}

/// No node below the child `c` of a node of level `lvl` is left without
/// children.
pub open spec fn chd_pruned(c: QuadChd, lvl: nat) -> bool
    decreases lvl, 0nat,
{
    match c {
        QuadChd::Node(n) => lvl >= 2 && !n.no_children() && n.pruned((lvl - 1) as nat),
        _ => true,
    }
}

/// Side, in chunks, of the square that a node of level `lvl` covers.
pub open spec fn node_span(lvl: nat) -> int {
    pow2(lvl) as int
}

/// What a clean-up leaves of a stored chunk: empty chunks are dropped.
pub open spec fn kept_after_clean(c: Option<Chunk>) -> Option<Chunk> {
    match c {
        Some(ch) => if ch.all_empty() {
            None
        } else {
            Some(ch)
        },
        None => None,
    }
}

pub proof fn lemma_split(x: int, s: int)
    requires
        0 < s,
        0 <= x < 2 * s,
    ensures
        0 <= x / s < 2,
        x % s == x - (x / s) * s,
        0 <= x % s < s,
        x < s ==> x / s == 0,
        x >= s ==> x / s == 1,
{
    if x < s {
        lemma_fundamental_div_mod_converse(x, s, 0, x);
    } else {
        lemma_fundamental_div_mod_converse(x, s, 1, x - s);
    }
}

/// A non-negative coordinate whose quotient by `s` is below 2 is below `2 * s`.
pub proof fn lemma_quot_range(x: int, s: int)
    requires
        0 < s,
        0 <= x,
        x / s < 2,
    ensures
        x < 2 * s,
        0 <= x / s,
{
    lemma_fundamental_div_mod(x, s);
    lemma_mod_bound(x, s);
    let q = x / s;
    let r = x % s;
    assert(0 <= q && x < 2 * s) by (nonlinear_arith)
        requires
            x == s * q + r,
            0 <= r < s,
            0 <= x,
            q < 2,
            0 < s,
    ;
}

/// Two points of a node's square lie under the same child exactly when their
/// quotients by the child's span agree.
pub proof fn lemma_same_point(x: int, x2: int, s: int)
    requires
        0 < s,
        0 <= x < 2 * s,
        0 <= x2 < 2 * s,
        x / s == x2 / s,
        x % s == x2 % s,
    ensures
        x == x2,
{
    lemma_split(x, s);
    lemma_split(x2, s);
}

pub proof fn lemma_spans(lvl: nat)
    requires
        1 <= lvl <= usize::BITS,
    ensures
        node_span(lvl) == 2 * child_span(lvl),
        child_span(lvl) > 0,
{
    lemma_pow2_unfold(lvl);
    lemma_pow2_pos((lvl - 1) as nat);
}

/// Changing one child of a node of level `lvl`, below which only the chunk at
/// (x0, y0) may change, changes no other chunk of the node.
proof fn lemma_slot_update(mid: QuadNode, lvl: nat, idx: int, idy: int, x0: int, y0: int)
    requires
        1 <= lvl <= usize::BITS,
        0 <= idx < 2,
        0 <= idy < 2,
        lvl >= 2 ==> mid.chd[idx][idy] is Node,
        0 <= x0 < node_span(lvl),
        0 <= y0 < node_span(lvl),
        x0 / child_span(lvl) == idx,
        y0 / child_span(lvl) == idy,
    ensures
        forall|nn: QuadNode, x2: int, y2: int|
            {
                &&& (idx != 0 || idy != 0) ==> nn.chd[0][0] == mid.chd[0][0]
                &&& (idx != 0 || idy != 1) ==> nn.chd[0][1] == mid.chd[0][1]
                &&& (idx != 1 || idy != 0) ==> nn.chd[1][0] == mid.chd[1][0]
                &&& (idx != 1 || idy != 1) ==> nn.chd[1][1] == mid.chd[1][1]
                &&& lvl >= 2 ==> nn.chd[idx][idy] is Node
                &&& (lvl >= 2 && !(x2 % child_span(lvl) == x0 % child_span(lvl) && y2 % child_span(lvl)
                    == y0 % child_span(lvl))) ==> (nn.chd[idx][idy]->Node_0).chunk_at(
                    (lvl - 1) as nat,
                    x2 % child_span(lvl),
                    y2 % child_span(lvl),
                ) == (mid.chd[idx][idy]->Node_0).chunk_at(
                    (lvl - 1) as nat,
                    x2 % child_span(lvl),
                    y2 % child_span(lvl),
                )
            } ==> (!(x2 == x0 && y2 == y0) ==> #[trigger] nn.chunk_at(lvl, x2, y2) == mid.chunk_at(
                lvl,
                x2,
                y2,
            )),
{
    let s = child_span(lvl);
    lemma_spans(lvl);
    lemma2_to64();
    assert forall|nn: QuadNode, x2: int, y2: int|
            {
                &&& (idx != 0 || idy != 0) ==> nn.chd[0][0] == mid.chd[0][0]
                &&& (idx != 0 || idy != 1) ==> nn.chd[0][1] == mid.chd[0][1]
                &&& (idx != 1 || idy != 0) ==> nn.chd[1][0] == mid.chd[1][0]
                &&& (idx != 1 || idy != 1) ==> nn.chd[1][1] == mid.chd[1][1]
                &&& lvl >= 2 ==> nn.chd[idx][idy] is Node
                &&& (lvl >= 2 && !(x2 % s == x0 % s && y2 % s == y0 % s)) ==> (nn.chd[idx][idy]->Node_0).chunk_at(
                    (lvl - 1) as nat,
                    x2 % s,
                    y2 % s,
                ) == (mid.chd[idx][idy]->Node_0).chunk_at((lvl - 1) as nat, x2 % s, y2 % s)
            } && !(x2 == x0 && y2 == y0) implies #[trigger] nn.chunk_at(lvl, x2, y2) == mid.chunk_at(
        lvl,
        x2,
        y2,
    ) by {
        if 0 <= x2 && 0 <= y2 && x2 / s == idx && y2 / s == idy {
            lemma_quot_range(x2, s);
            lemma_quot_range(y2, s);
            if lvl == 1 {
                assert(s == 1);
                lemma_fundamental_div_mod_converse(x2, s, x2, 0);
                lemma_fundamental_div_mod_converse(y2, s, y2, 0);
                lemma_fundamental_div_mod_converse(x0, s, x0, 0);
                lemma_fundamental_div_mod_converse(y0, s, y0, 0);
            } else if x2 < 2 * s && y2 < 2 * s {
                if x2 % s == x0 % s && y2 % s == y0 % s {
                    lemma_same_point(x0, x2, s);
                    lemma_same_point(y0, y2, s);
                }
            }
        }
    }
}

/// Cleans one child of a node of level `lvl`; the child is dropped where
/// nothing is left below it.
fn clean_slot(c: &mut QuadChd, Ghost(lvl): Ghost<nat>)
    requires
        chd_wf(*old(c), lvl),
    ensures
        forall|l: nat|
            #[trigger] chd_wf(*old(c), l) ==> {
                &&& chd_wf(*final(c), l)
                &&& chd_pruned(*final(c), l)
                &&& forall|x: int, y: int|
                    #[trigger] chd_chunk_at(*final(c), l, x, y) == kept_after_clean(
                        chd_chunk_at(*old(c), l, x, y),
                    )
            },
    decreases lvl, 0nat,
{
    let ghost old_c = *c;
    let ghost mut new_n: QuadNode = QuadNode { chd: arbitrary() };
    let drop = match c {
        QuadChd::Empty => false,
        QuadChd::Leaf(chunk) => chunk.is_empty(),
        QuadChd::Node(n) => {
            let gone = n.clean_at(Ghost((lvl - 1) as nat));
            proof {
                new_n = **n;
            }
            gone
        },
    };
    proof {
        if let QuadChd::Node(on) = old_c {
            assert(*c == QuadChd::Node(Box::new(new_n)));
            assert(on.cleaned(new_n));
            assert(drop == new_n.no_children());
        } else {
            assert(*c == old_c);
        }
    }
    let ghost mid_c = *c;
    if drop {
        *c = QuadChd::Empty;
    }
    proof {
        assert forall|l: nat| #[trigger] chd_wf(old_c, l) implies {
            &&& chd_wf(*c, l)
            &&& chd_pruned(*c, l)
            &&& forall|x: int, y: int|
                #[trigger] chd_chunk_at(*c, l, x, y) == kept_after_clean(chd_chunk_at(old_c, l, x, y))
        } by {
            assert forall|x: int, y: int|
                #[trigger] chd_chunk_at(*c, l, x, y) == kept_after_clean(chd_chunk_at(old_c, l, x, y)) by {
                if let QuadChd::Node(on) = old_c {
                    if l >= 2 {
                        assert(on.wf((l - 1) as nat));
                        assert(new_n.chunk_at((l - 1) as nat, x, y) == kept_after_clean(
                            on.chunk_at((l - 1) as nat, x, y),
                        ));
                        if drop {
                            new_n.lemma_no_children_no_chunks((l - 1) as nat, x, y);
                        }
                    }
                }
            }
            if let QuadChd::Node(on) = old_c {
                if l >= 2 {
                    assert(on.wf((l - 1) as nat));
                    assert(new_n.wf((l - 1) as nat));
                    assert(new_n.pruned((l - 1) as nat));
                }
            }
        }
    }
}

impl QuadNode {
    /// The node has the shape of a tree of level `lvl`.
    pub open spec fn wf(self, lvl: nat) -> bool
        decreases lvl, 1nat,
    {
        &&& 1 <= lvl <= usize::BITS
        &&& chd_wf(self.chd[0][0], lvl)
        &&& chd_wf(self.chd[0][1], lvl)
        &&& chd_wf(self.chd[1][0], lvl)
        &&& chd_wf(self.chd[1][1], lvl)
    }

    /// The chunk stored at chunk coordinates (x, y) of a tree of level `lvl`.
    pub open spec fn chunk_at(self, lvl: nat, x: int, y: int) -> Option<Chunk>
        decreases lvl, 1nat,
    {
        if lvl == 0 {
            None
        } else {
            let s = child_span(lvl);
            let i = x / s;
            let j = y / s;
            if 0 <= x && 0 <= y && 0 <= i < 2 && 0 <= j < 2 {
                chd_chunk_at(self.chd[i][j], lvl, x % s, y % s)
            } else {
                None
            }
        }
    }

    /// No node of the tree of level `lvl` below this one is left without
    /// children.
    pub open spec fn pruned(self, lvl: nat) -> bool
        decreases lvl, 1nat,
    {
        &&& chd_pruned(self.chd[0][0], lvl)
        &&& chd_pruned(self.chd[0][1], lvl)
        &&& chd_pruned(self.chd[1][0], lvl)
        &&& chd_pruned(self.chd[1][1], lvl)
    }

    /// A tree whose nodes all have children, and that has a child, stores a
    /// chunk.
    pub proof fn lemma_pruned_has_chunk(self, lvl: nat) -> (p: (int, int))
        requires
            self.wf(lvl),
            self.pruned(lvl),
            !self.no_children(),
        ensures
            self.chunk_at(lvl, p.0, p.1) is Some,
        decreases lvl,
    {
        lemma_spans(lvl);
        let s = child_span(lvl);
        let (i, j): (int, int) = if self.chd[0][0] !is Empty {
            (0, 0)
        } else if self.chd[0][1] !is Empty {
            (0, 1)
        } else if self.chd[1][0] !is Empty {
            (1, 0)
        } else {
            (1, 1)
        };
        assert(chd_wf(self.chd[i][j], lvl));
        assert(chd_pruned(self.chd[i][j], lvl));
        let (a, b): (int, int) = match self.chd[i][j] {
            QuadChd::Node(n) => {
                let q = n.lemma_pruned_has_chunk((lvl - 1) as nat);
                if !(0 <= q.0 < node_span((lvl - 1) as nat) && 0 <= q.1 < node_span((lvl - 1) as nat)) {
                    n.lemma_outside_no_chunk((lvl - 1) as nat, q.0, q.1);
                }
                q
            },
            _ => (0, 0),
        };
        assert(0 <= a < s && 0 <= b < s) by {
            if lvl >= 2 {
                vstd::arithmetic::power2::lemma_pow2_unfold(lvl);
            }
        }
        lemma_fundamental_div_mod_converse(i * s + a, s, i, a);
        lemma_fundamental_div_mod_converse(j * s + b, s, j, b);
        assert(0 <= i * s + a && 0 <= j * s + b) by (nonlinear_arith)
            requires
                0 <= i,
                0 <= j,
                0 < s,
                0 <= a,
                0 <= b,
        ;
        (i * s + a, j * s + b)
    }

    /// No child of the node is present.
    pub open spec fn no_children(self) -> bool {
        &&& self.chd[0][0] is Empty
        &&& self.chd[0][1] is Empty
        &&& self.chd[1][0] is Empty
        &&& self.chd[1][1] is Empty
    }

    pub fn new() -> (n: QuadNode)
        ensures
            n.no_children(),
            forall|lvl: nat| 1 <= lvl <= usize::BITS ==> #[trigger] n.wf(lvl),
    {
        QuadNode { chd: [[QuadChd::Empty, QuadChd::Empty], [QuadChd::Empty, QuadChd::Empty]] }
    }

    /// A node with no children stores no chunk.
    pub proof fn lemma_no_children_no_chunks(self, lvl: nat, x: int, y: int)
        requires
            self.no_children(),
        ensures
            self.chunk_at(lvl, x, y) is None,
    {
    }

    /// Splits chunk coordinates (x, y) of a tree of level `lvl` into the child
    /// that holds them and the coordinates relative to that child.
    fn find_chd(&self, x: &mut usize, y: &mut usize, lvl: Level) -> (r: (usize, usize))
        requires
            1 <= lvl <= usize::BITS,
            *old(x) < node_span(lvl as nat),
            *old(y) < node_span(lvl as nat),
        ensures
            r.0 == (*old(x) as int) / child_span(lvl as nat),
            r.1 == (*old(y) as int) / child_span(lvl as nat),
            r.0 < NODE_SIZE,
            r.1 < NODE_SIZE,
            *final(x) == (*old(x) as int) % child_span(lvl as nat),
            *final(y) == (*old(y) as int) % child_span(lvl as nat),
    {
        proof {
            lemma_spans(lvl as nat);
            lemma_split(*x as int, child_span(lvl as nat));
            lemma_split(*y as int, child_span(lvl as nat));
        }
        let scale = (lvl - 1) * NODE_LOG_SIZE;
        assert(scale == lvl - 1);
        let idx = *x >> scale;
        let idy = *y >> scale;
        proof {
            lemma_usize_shr_is_div(*x, scale);
            lemma_usize_shr_is_div(*y, scale);
            lemma_usize_pow2_no_overflow(scale as nat);
            assert(idx * pow2(scale as nat) <= *x);
            assert(idy * pow2(scale as nat) <= *y);
            lemma_usize_shl_is_mul(idx, scale);
            lemma_usize_shl_is_mul(idy, scale);
        }
        *x = *x - (idx << scale);
        *y = *y - (idy << scale);
        (idx, idy)
    }

    /// The chunk at chunk coordinates (x, y) of a tree of level `lvl`, if it is stored.
    pub fn try_get_chunk(&self, x: usize, y: usize, lvl: Level) -> (r: Option<&Chunk>)
        requires
            self.wf(lvl as nat),
            x < node_span(lvl as nat),
            y < node_span(lvl as nat),
        ensures
            match r {
                Some(c) => self.chunk_at(lvl as nat, x as int, y as int) == Some(*c),
                None => self.chunk_at(lvl as nat, x as int, y as int) is None,
            },
        decreases lvl,
    {
        let mut x = x;
        let mut y = y;
        let (idx, idy) = self.find_chd(&mut x, &mut y, lvl);
        proof {
            lemma_spans(lvl as nat);
        }
        match &self.chd[idx][idy] {
            QuadChd::Empty => None,
            QuadChd::Leaf(chunk) => Some(&**chunk),
            QuadChd::Node(chunk) => {
                proof {
                    lemma_spans((lvl - 1) as nat);
                }
                chunk.try_get_chunk(x, y, lvl - 1)
            },
        }
    }

    /// The chunk at chunk coordinates (x, y) of a tree of level `lvl`, created
    /// empty, with the nodes that lead to it, where it is not stored yet.
    pub fn get_chunk_mut(&mut self, x: usize, y: usize, lvl: Level) -> (r: &mut Chunk)
        requires
            old(self).wf(lvl as nat),
            x < node_span(lvl as nat),
            y < node_span(lvl as nat),
        ensures
            final(self).wf(lvl as nat),
            match old(self).chunk_at(lvl as nat, x as int, y as int) {
                Some(c) => *r == c,
                None => r.all_empty(),
            },
            final(self).chunk_at(lvl as nat, x as int, y as int) == Some(*final(r)),
            forall|x2: int, y2: int|
                !(x2 == x && y2 == y) ==> #[trigger] final(self).chunk_at(lvl as nat, x2, y2)
                    == old(self).chunk_at(lvl as nat, x2, y2),
        decreases lvl,
    {
        let ghost x0 = x as int;
        let ghost y0 = y as int;
        let mut x = x;
        let mut y = y;
        let (idx, idy) = self.find_chd(&mut x, &mut y, lvl);
        proof {
            lemma_spans(lvl as nat);
        }
        let ghost s = child_span(lvl as nat);
        if matches!(self.chd[idx][idy], QuadChd::Empty) {
            if lvl == 1 {
                self.chd[idx][idy] = QuadChd::Leaf(Box::new(Chunk::new()));
            } else {
                let n = QuadNode::new();
                assert(n.wf((lvl - 1) as nat));
                self.chd[idx][idy] = QuadChd::Node(Box::new(n));
            }
        }
        let ghost mid = *self;
        assert(mid.wf(lvl as nat));
        assert(forall|k: int, l: int| 0 <= k < 2 && 0 <= l < 2 && !(k == idx && l == idy) ==> mid.chd[k][l] == old(self).chd[k][l]);
        assert(mid.chd[idx as int][idy as int] is Empty ==> false);
        assert forall|x2: int, y2: int| !(x2 == x0 && y2 == y0) implies #[trigger] mid.chunk_at(lvl as nat, x2, y2)
            == old(self).chunk_at(lvl as nat, x2, y2) by {
            if !(0 <= x2 && 0 <= y2 && 0 <= x2 / s < 2 && 0 <= y2 / s < 2) {
                assert(mid.chunk_at(lvl as nat, x2, y2) is None);
                assert(old(self).chunk_at(lvl as nat, x2, y2) is None);
            } else if !(x2 / s == idx && y2 / s == idy) {
                assert(mid.chd[x2 / s][y2 / s] == old(self).chd[x2 / s][y2 / s]);
            } else if lvl > 1 {
                assert(old(self).chd[idx as int][idy as int] is Empty ==> mid.chd[idx as int][idy as int] is Node);
            } else {
                lemma2_to64();
                assert(s == 1);
                lemma_fundamental_div_mod_converse(x2, s, x2, 0);
                lemma_fundamental_div_mod_converse(y2, s, y2, 0);
                lemma_fundamental_div_mod_converse(x0, s, x0, 0);
                lemma_fundamental_div_mod_converse(y0, s, y0, 0);
                assert(false);
            }
            if lvl > 1 && 0 <= x2 && 0 <= y2 && x2 / s == idx && y2 / s == idy {
                if let QuadChd::Node(n) = mid.chd[idx as int][idy as int] {
                    if old(self).chd[idx as int][idy as int] is Empty {
                        n.lemma_no_children_no_chunks((lvl - 1) as nat, x2 % s, y2 % s);
                    }
                }
            }
            if lvl == 1 && 0 <= x2 && 0 <= y2 && x2 / s == idx && y2 / s == idy && x2 < 2 * s && y2 < 2 * s {
                lemma2_to64();
                lemma_split(x2, s);
                lemma_split(y2, s);
                lemma_split(x0, s);
                lemma_split(y0, s);
            }
        }
        proof {
            lemma_slot_update(mid, lvl as nat, idx as int, idy as int, x0, y0);
        }
        match &mut self.chd[idx][idy] {
            QuadChd::Leaf(chunk) => {
                assert(lvl == 1);
                &mut **chunk
            },
            QuadChd::Node(n) => {
                proof {
                    lemma_spans((lvl - 1) as nat);
                    
                }
                let r = n.get_chunk_mut(x, y, lvl - 1);
                r
            },
            QuadChd::Empty => unreached(),
        }
    }

    /// The chunk at chunk coordinates (x, y) of a tree of level `lvl`, for
    /// writing, if it is stored.
    pub fn try_get_chunk_mut(&mut self, x: usize, y: usize, lvl: Level) -> (r: Option<&mut Chunk>)
        requires
            old(self).wf(lvl as nat),
            x < node_span(lvl as nat),
            y < node_span(lvl as nat),
        ensures
            final(self).wf(lvl as nat),
            match r {
                Some(c) => {
                    &&& old(self).chunk_at(lvl as nat, x as int, y as int) == Some(*c)
                    &&& final(self).chunk_at(lvl as nat, x as int, y as int) == Some(*final(c))
                    &&& forall|x2: int, y2: int|
                        !(x2 == x && y2 == y) ==> #[trigger] final(self).chunk_at(lvl as nat, x2, y2)
                            == old(self).chunk_at(lvl as nat, x2, y2)
                },
                None => {
                    &&& old(self).chunk_at(lvl as nat, x as int, y as int) is None
                    &&& *final(self) == *old(self)
                },
            },
            match old(self).chunk_at(lvl as nat, x as int, y as int) {
                Some(_) => r is Some,
                None => r is None,
            },
        decreases lvl,
    {
        if self.try_get_chunk(x, y, lvl).is_none() {
            return None;
        }
        let ghost x0 = x as int;
        let ghost y0 = y as int;
        let ghost old_self = *self;
        let mut x = x;
        let mut y = y;
        let (idx, idy) = self.find_chd(&mut x, &mut y, lvl);
        proof {
            lemma_spans(lvl as nat);
            if old_self.chd[idx as int][idy as int] !is Empty {
                lemma_slot_update(old_self, lvl as nat, idx as int, idy as int, x0, y0);
            }
        }
        match &mut self.chd[idx][idy] {
            QuadChd::Empty => unreached(),
            QuadChd::Leaf(chunk) => Some(&mut **chunk),
            QuadChd::Node(n) => {
                proof {
                    lemma_spans((lvl - 1) as nat);
                }
                n.try_get_chunk_mut(x, y, lvl - 1)
            },
        }
    }

    /// Whether the node has no child.
    pub fn is_empty(&self) -> (r: bool)
        ensures
            r == self.no_children(),
    {
        matches!(self.chd[0][0], QuadChd::Empty) && matches!(self.chd[0][1], QuadChd::Empty)
            && matches!(self.chd[1][0], QuadChd::Empty) && matches!(self.chd[1][1], QuadChd::Empty)
    }


    /// The node has the shape of a tree of some level.
    pub open spec fn is_tree(self) -> bool {
        exists|l: nat| #[trigger] self.wf(l)
    }

    /// What a clean-up leaves of a tree of level `l`.
    pub open spec fn cleaned(self, after: QuadNode) -> bool {
        forall|l: nat|
            #[trigger] self.wf(l) ==> {
                &&& after.wf(l)
                &&& forall|x: int, y: int|
                    #[trigger] after.chunk_at(l, x, y) == kept_after_clean(self.chunk_at(l, x, y))
            }
    }

    /// Drops every empty chunk, and every node left without children, below
    /// this node; tells whether the node itself is left without children.
    pub fn clean(&mut self) -> (r: bool)
        requires
            old(self).is_tree(),
        ensures
            old(self).cleaned(*final(self)),
            r == final(self).no_children(),
            forall|l: nat|
                #[trigger] old(self).wf(l) ==> {
                    &&& final(self).pruned(l)
                    &&& r == forall|x: int, y: int|
                        #[trigger] kept_after_clean(old(self).chunk_at(l, x, y)) is None
                },
    {
        let ghost lvl = choose|l: nat| old(self).wf(l);
        let r = self.clean_at(Ghost(lvl));
        proof {
            assert forall|l: nat| #[trigger] old(self).wf(l) implies r == forall|x: int, y: int|
                #[trigger] kept_after_clean(old(self).chunk_at(l, x, y)) is None by {
                if r {
                    assert forall|x: int, y: int| #[trigger] kept_after_clean(old(self).chunk_at(l, x, y)) is None by {
                        self.lemma_no_children_no_chunks(l, x, y);
                    }
                } else {
                    let p = self.lemma_pruned_has_chunk(l);
                    assert(self.chunk_at(l, p.0, p.1) == kept_after_clean(old(self).chunk_at(l, p.0, p.1)));
                }
            }
        }
        r
    }

    fn clean_at(&mut self, Ghost(lvl): Ghost<nat>) -> (r: bool)
        requires
            old(self).wf(lvl),
        ensures
            old(self).cleaned(*final(self)),
            r == final(self).no_children(),
            forall|l: nat| #[trigger] old(self).wf(l) ==> final(self).pruned(l),
        decreases lvl, 1nat,
    {
        let ghost old_self = *self;
        clean_slot(&mut self.chd[0][0], Ghost(lvl));
        clean_slot(&mut self.chd[0][1], Ghost(lvl));
        clean_slot(&mut self.chd[1][0], Ghost(lvl));
        clean_slot(&mut self.chd[1][1], Ghost(lvl));
        proof {
            assert forall|l: nat| #[trigger] old_self.wf(l) implies self.wf(l) && self.pruned(l) by {
                assert(chd_wf(old_self.chd[0][0], l));
                assert(chd_wf(old_self.chd[0][1], l));
                assert(chd_wf(old_self.chd[1][0], l));
                assert(chd_wf(old_self.chd[1][1], l));
            }
        }
        proof {
            assert forall|l: nat| #[trigger] old_self.wf(l) implies {
                &&& self.wf(l)
                &&& forall|x: int, y: int|
                    #[trigger] self.chunk_at(l, x, y) == kept_after_clean(old_self.chunk_at(l, x, y))
            } by {
                assert forall|x: int, y: int|
                    #[trigger] self.chunk_at(l, x, y) == kept_after_clean(old_self.chunk_at(l, x, y)) by {
                    if l >= 1 {
                        let s = child_span(l);
                        lemma_spans(l);
                        let i = x / s;
                        let j = y / s;
                        if 0 <= x && 0 <= y && 0 <= i < 2 && 0 <= j < 2 {
                            if i == 0 && j == 0 {
                                assert(chd_wf(old_self.chd[0][0], l));
                                assert(chd_chunk_at(self.chd[0][0], l, x % s, y % s) == kept_after_clean(
                                    chd_chunk_at(old_self.chd[0][0], l, x % s, y % s)));
                            } else if i == 0 && j == 1 {
                                assert(chd_wf(old_self.chd[0][1], l));
                                assert(chd_chunk_at(self.chd[0][1], l, x % s, y % s) == kept_after_clean(
                                    chd_chunk_at(old_self.chd[0][1], l, x % s, y % s)));
                            } else if i == 1 && j == 0 {
                                assert(chd_wf(old_self.chd[1][0], l));
                                assert(chd_chunk_at(self.chd[1][0], l, x % s, y % s) == kept_after_clean(
                                    chd_chunk_at(old_self.chd[1][0], l, x % s, y % s)));
                            } else {
                                assert(chd_wf(old_self.chd[1][1], l));
                                assert(chd_chunk_at(self.chd[1][1], l, x % s, y % s) == kept_after_clean(
                                    chd_chunk_at(old_self.chd[1][1], l, x % s, y % s)));
                            }
                        }
                    }
                }
            }
        }
        self.is_empty()
    }

    /// A tree of level `lvl` stores no chunk outside its square.
    pub proof fn lemma_outside_no_chunk(self, lvl: nat, x: int, y: int)
        requires
            1 <= lvl <= usize::BITS,
            !(0 <= x < node_span(lvl) && 0 <= y < node_span(lvl)),
        ensures
            self.chunk_at(lvl, x, y) is None,
    {
        lemma_spans(lvl);
        let s = child_span(lvl);
        if 0 <= x && 0 <= y && x / s < 2 && y / s < 2 {
            lemma_quot_range(x, s);
            lemma_quot_range(y, s);
        }
    }
}

} // verus!
