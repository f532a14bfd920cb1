//! Monte Carlo tree search: UCB1-style weighted random selection,
//! expansion after a number of visits, random games as simulation, and
//! backpropagation with proven wins and losses. Points are counted in
//! halves: a win is worth 2, a draw 1, a loss 0. Real-valued parameters
//! are fixed-point numbers with `SCALE` as one.
use vstd::prelude::*;

use crate::board::{
    disc_count, drop_disc, first_winning_move, grid_full, lemma_count_bound, lemma_turn_alternates,
    open_column, side_to_move, valid_grid, winning_move, BitBoard, Side, COLS,
};
use crate::playout::{game_winner, is_game, random_game, RandomSource};

verus! {

/// The fixed-point one.
pub const SCALE: u64 = 65536;

/// Bound on a fixed-point logarithm of the number of passes.
pub const LOG_MAX: u64 = 0x1_0000_0000;

/// Bound on the fixed-point exploration constant.
pub const C_MAX: u64 = 0x1_0000_0000;

/// Bound on the number of nodes of a tree before a pass.
pub const MAX_NODES: usize = 0x1000_0000;

/// Bound on the number of selection passes over one tree.
pub const MAX_PASSES: u64 = 0x100_0000_0000;

/// Points of a win, a draw and a loss.
pub const WIN_POINTS: u64 = 2;

pub const DRAW_POINTS: u64 = 1;

pub const LOSE_POINTS: u64 = 0;

/// The integer square root: the largest `r` with `r * r <= x`.
pub fn isqrt(x: u64) -> (r: u64)
    requires
        x <= 0x1_0000_0000_0000,
    ensures
        r * r <= x < (r + 1) * (r + 1),
{
    let mut lo: u64 = 0;
    let mut hi: u64 = 0x100_0001;
    assert(hi * hi > 0x1_0000_0000_0000) by (nonlinear_arith)
        requires
            hi == 0x100_0001,
    ;
    while hi - lo > 1
        invariant
            lo < hi <= 0x100_0001,
            lo * lo <= x < hi * hi,
        decreases hi - lo,
    {
        let mid = lo + (hi - lo) / 2;
        assert(mid * mid <= 0x100_0001 * 0x100_0001) by (nonlinear_arith)
            requires
                mid <= 0x100_0001,
        ;
        if mid * mid <= x {
            lo = mid;
        } else {
            hi = mid;
        }
    }
    assert(hi == lo + 1);
    lo
}

/// Sum of the first `n` weights.
pub open spec fn weight_sum(w: Seq<u64>, n: int) -> int
    decreases n,
{
    if n <= 0 {
        0
    } else {
        weight_sum(w, n - 1) + w[n - 1]
    }
}

proof fn lemma_weight_sum_bound(w: Seq<u64>, n: int, bound: int)
    requires
        0 <= n <= w.len(),
        forall|i: int| 0 <= i < w.len() ==> #[trigger] w[i] <= bound,
    ensures
        0 <= weight_sum(w, n) <= n * bound,
    decreases n,
{
    if n > 0 {
        lemma_weight_sum_bound(w, n - 1, bound);
        assert((n - 1) * bound + bound == n * bound) by (nonlinear_arith);
    }
}

proof fn lemma_weight_sum_mono(w: Seq<u64>, m: int, n: int)
    requires
        0 <= m <= n <= w.len(),
    ensures
        weight_sum(w, m) <= weight_sum(w, n),
    decreases n - m,
{
    if m < n {
        lemma_weight_sum_mono(w, m, n - 1);
    }
}

/// The draw `d` falls into the share of index `r`.
pub open spec fn lands(w: Seq<u64>, r: int, d: int) -> bool {
    weight_sum(w, r) <= d < weight_sum(w, r + 1)
}

/// The index whose share of the weights holds the draw `d`: the `r` with
/// `weight_sum(weight, r) <= d < weight_sum(weight, r + 1)`.
pub fn pick(weight: &Vec<u64>, d: u64) -> (r: usize)
    requires
        weight_sum(weight@, weight.len() as int) <= u64::MAX,
        d < weight_sum(weight@, weight.len() as int),
    ensures
        r < weight.len(),
        weight_sum(weight@, r as int) <= d < weight_sum(weight@, r + 1),
{
    let mut p: u64 = 0;
    let mut i: usize = 0;
    while i < weight.len()
        invariant
            i <= weight.len(),
            p == weight_sum(weight@, i as int),
            d >= p,
            d < weight_sum(weight@, weight.len() as int),
            weight_sum(weight@, weight.len() as int) <= u64::MAX,
        decreases weight.len() - i,
    {
        proof {
            lemma_weight_sum_mono(weight@, i + 1, weight.len() as int);
        }
        p = p + weight[i];
        if d < p {
            return i;
        }
        i += 1;
    }
    i
}

/// Picks an index at random, each with probability proportional to its
/// weight: a draw below the sum of the weights selects the index whose
/// share holds it. With all weights zero, the last index.
pub fn choice_with_weight<R: RandomSource>(rng: &mut R, weight: &Vec<u64>) -> (r: usize)
    requires
        0 < weight.len(),
        weight_sum(weight@, weight.len() as int) <= u64::MAX,
    ensures
        r < weight.len(),
        weight_sum(weight@, weight.len() as int) == 0 ==> r == weight.len() - 1,
        weight_sum(weight@, weight.len() as int) > 0 ==> exists|d: int|
            0 <= d < weight_sum(weight@, weight.len() as int) && #[trigger] lands(weight@, r as int, d),
{
    let mut sum: u64 = 0;
    let mut i: usize = 0;
    while i < weight.len()
        invariant
            i <= weight.len(),
            sum == weight_sum(weight@, i as int),
            weight_sum(weight@, weight.len() as int) <= u64::MAX,
        decreases weight.len() - i,
    {
        proof {
            lemma_weight_sum_mono(weight@, i + 1, weight.len() as int);
        }
        sum = sum + weight[i];
        i += 1;
    }
    if sum == 0 {
        return weight.len() - 1;
    }
    let d = rng.below(sum);
    let r = pick(weight, d);
    assert(lands(weight@, r as int, d as int));
    r
}

/// The UCB1 weight of a child, in fixed point: its loss rate as seen from
/// the child (the parent's win rate) plus `c * sqrt(log_total / visits)`,
/// each rounded down.
pub open spec fn ucb_weight(points: int, visits: int, log_total: int, c: int, root: int) -> int {
    (SCALE - (points * SCALE) / (2 * visits)) + (c * root) / SCALE as int
}

/// `root` is the integer square root of `log_total * SCALE / visits`.
pub open spec fn is_sqrt_term(root: int, log_total: int, visits: int) -> bool {
    root * root <= (log_total * SCALE) / visits && (log_total * SCALE) / visits < (root + 1) * (
    root + 1)
}

/// `w` is the UCB1 weight of a child with `points` and `visits`.
pub open spec fn is_ucb(w: u64, points: u64, visits: u64, log_total: u64, c: u64) -> bool {
    exists|root: int|
        is_sqrt_term(root, log_total as int, visits as int) && w == ucb_weight(
            points as int,
            visits as int,
            log_total as int,
            c as int,
            root,
        )
}

pub fn ucb(points: u64, visits: u64, log_total: u64, c: u64) -> (r: u64)
    requires
        1 <= visits,
        points <= 2 * visits,
        visits <= MAX_PASSES,
        log_total <= LOG_MAX,
        c <= C_MAX,
    ensures
        exists|root: int| is_sqrt_term(root, log_total as int, visits as int)
            && r == ucb_weight(points as int, visits as int, log_total as int, c as int, root),
        is_ucb(r, points, visits, log_total, c),
        r <= 0x100_0000_0000_0000,
{
    assert(points * SCALE <= 2 * MAX_PASSES * SCALE) by (nonlinear_arith)
        requires
            points <= 2 * visits,
            visits <= MAX_PASSES,
    ;
    assert((points * SCALE) as int / (2 * visits) as int <= SCALE) by (nonlinear_arith)
        requires
            points <= 2 * visits,
            1 <= visits,
    ;
    let a = SCALE - (points * SCALE) / (2 * visits);
    assert(log_total * SCALE <= LOG_MAX * SCALE) by (nonlinear_arith)
        requires
            log_total <= LOG_MAX,
    ;
    assert((log_total * SCALE) as int / visits as int <= log_total * SCALE) by (nonlinear_arith)
        requires
            1 <= visits,
    ;
    let root = isqrt((log_total * SCALE) / visits);
    assert(root <= 0x100_0000) by (nonlinear_arith)
        requires
            root * root <= 0x1_0000_0000_0000,
    ;
    assert(c * root <= C_MAX * 0x100_0000) by (nonlinear_arith)
        requires
            c <= C_MAX,
            root <= 0x100_0000,
    ;
    let b = (c * root) / SCALE;
    assert(b <= c * root);
    assert(is_sqrt_term(root as int, log_total as int, visits as int));
    assert(a + b == ucb_weight(points as int, visits as int, log_total as int, c as int, root as int));
    a + b
}

/// A result proven for the side to move at a node.
#[derive(Debug, Clone, Copy, PartialEq, Eq, Structural)]
pub enum Proven {
    Win,
    Lose,
}

/// A search tree over one position, held as an arena: node 0 is the
/// root, and each node lists the indices of its children.
pub struct Tree {
    boards: Vec<BitBoard>,
    visits: Vec<u64>,
    points: Vec<u64>,
    proven: Vec<Option<Proven>>,
    children: Vec<Vec<usize>>,
    passes: u64,
}

/// The move chosen at the root: its column, and the visits and points of
/// its node, points counted for the side to move after it.
#[derive(Debug, Clone, Copy, PartialEq, Eq)]
pub struct Choice {
    pub col: usize,
    pub visits: u64,
    pub points: u64,
}

impl Tree {
    pub closed spec fn size(self) -> int {
        self.boards.len() as int
    }

    pub closed spec fn board(self, i: int) -> BitBoard {
        self.boards@[i]
    }

    /// Number of discs on the board of node `i`.
    pub closed spec fn depth(self, i: int) -> int {
        disc_count(self.boards@[i]@)
    }

    pub closed spec fn node_visits(self, i: int) -> u64 {
        self.visits@[i]
    }

    pub closed spec fn node_points(self, i: int) -> u64 {
        self.points@[i]
    }

    pub closed spec fn node_proven(self, i: int) -> Option<Proven> {
        self.proven@[i]
    }

    pub closed spec fn pass_count(self) -> u64 {
        self.passes
    }

    closed spec fn node_ok(self, i: int) -> bool {
        &&& self.boards@[i].wf()
        &&& self.visits@[i] <= self.passes
        &&& self.points@[i] <= 2 * self.visits@[i]
        &&& (self.proven@[i] == Some(Proven::Lose) ==> self.points@[i] == 0)
        &&& self.children@[i].len() <= COLS
    }

    /// The side to move at node `i`.
    pub closed spec fn mover(self, i: int) -> Side {
        side_to_move(self.boards@[i]@)
    }

    /// Node `i` has children.
    pub closed spec fn expanded(self, i: int) -> bool {
        self.children@[i].len() > 0
    }

    closed spec fn edge_ok(self, i: int, k: int) -> bool {
        &&& self.children@[i]@[k] < self.boards.len()
        &&& self.depth(self.children@[i]@[k] as int) == self.depth(i) + 1
        &&& exists|c: int|
            open_column(self.boards@[i]@, c) && #[trigger] drop_disc(self.boards@[i]@, c, self.mover(i))
                == self.boards@[self.children@[i]@[k] as int]@
    }

    /// A node expanded where its mover has a move that completes a line
    /// keeps that move alone, the first such, as a proven loss for the
    /// opponent.
    closed spec fn win_ok(self, i: int) -> bool {
        (self.children@[i].len() > 0 && exists|c: int| winning_move(self.boards@[i]@, self.mover(i), c))
            ==> {
            &&& self.children@[i].len() == 1
            &&& self.children@[i]@[0] < self.boards.len()
            &&& self.proven@[self.children@[i]@[0] as int] == Some(Proven::Lose)
            &&& exists|c: int|
                first_winning_move(self.boards@[i]@, self.mover(i), c) && #[trigger] drop_disc(
                    self.boards@[i]@,
                    c,
                    self.mover(i),
                ) == self.boards@[self.children@[i]@[0] as int]@
        }
    }

    /// The arena is consistent: every node has a well-formed board and at
    /// most as many points as two per visit, no more visits than passes;
    /// each child is the board after a move of its parent's mover, so one
    /// disc deeper; a node that could complete a line has that first move
    /// as its only child; a proven root has children.
    pub closed spec fn wf(self) -> bool {
        &&& self.boards.len() >= 1
        &&& self.visits.len() == self.boards.len()
        &&& self.points.len() == self.boards.len()
        &&& self.proven.len() == self.boards.len()
        &&& self.children.len() == self.boards.len()
        &&& self.passes <= MAX_PASSES
        &&& forall|i: int| 0 <= i < self.boards.len() ==> #[trigger] self.node_ok(i)
        &&& forall|i: int, k: int|
            0 <= i < self.boards.len() && 0 <= k < self.children@[i].len() ==> #[trigger] self.edge_ok(
                i,
                k,
            )
        &&& forall|i: int| 0 <= i < self.boards.len() ==> #[trigger] self.win_ok(i)
        &&& (self.proven@[0] is Some ==> self.children@[0].len() > 0)
    }

    /// A tree of one unvisited node.
    pub fn new(board: &BitBoard) -> (r: Tree)
        requires
            board.wf(),
        ensures
            r.wf(),
            r.size() == 1,
            r.board(0) == *board,
            r.node_visits(0) == 0,
            r.pass_count() == 0,
    {
        let r = Tree {
            boards: vec![*board],
            visits: vec![0],
            points: vec![0],
            proven: vec![None],
            children: vec![Vec::new()],
            passes: 0,
        };
        assert(r.node_ok(0));
        r
    }

    /// Number of nodes, discarded ones included.
    pub fn node_count(&self) -> (r: usize)
        ensures
            r == self.size(),
    {
        self.boards.len()
    }

    /// Number of selection passes made so far.
    pub fn passes(&self) -> (r: u64)
        ensures
            r == self.pass_count(),
    {
        self.passes
    }

    /// The root's result is proven.
    pub closed spec fn root_proven(self) -> bool {
        self.proven@[0] is Some
    }

    /// The root's result is proven.
    pub fn is_proven(&self) -> (r: bool)
        requires
            self.wf(),
        ensures
            r == self.root_proven(),
    {
        self.proven[0].is_some()
    }

    /// A tree whose nodes are each in order, and whose boards, children,
    /// proven results and pass count are those of a consistent tree, is
    /// consistent.
    proof fn lemma_same_shape(o: Tree, t: Tree)
        requires
            o.wf(),
            t.boards == o.boards,
            t.children == o.children,
            t.proven == o.proven,
            t.passes == o.passes,
            t.visits.len() == o.visits.len(),
            t.points.len() == o.points.len(),
            forall|j: int| 0 <= j < t.boards.len() ==> #[trigger] t.node_ok(j),
        ensures
            t.wf(),
    {
        assert forall|j: int, k: int|
            0 <= j < t.boards.len() && 0 <= k < t.children@[j].len() implies #[trigger] t.edge_ok(
            j,
            k,
        ) by {
            assert(o.edge_ok(j, k));
        }
        assert forall|j: int| 0 <= j < t.boards.len() implies #[trigger] t.win_ok(j) by {
            assert(o.win_ok(j));
        }
    }

    fn set_visits(&mut self, i: usize, v: u64)
        requires
            old(self).wf(),
            i < old(self).size(),
            old(self).points@[i as int] <= 2 * v,
            v <= old(self).passes,
        ensures
            final(self).wf(),
            *final(self) == (Tree { visits: final(self).visits, ..*old(self) }),
            final(self).visits@ == old(self).visits@.update(i as int, v),
    {
        self.visits.set(i, v);
        proof {
            let t = *self;
            let o = *old(self);
            assert forall|j: int| 0 <= j < t.boards.len() implies #[trigger] t.node_ok(j) by {
                assert(o.node_ok(j));
            }
            Tree::lemma_same_shape(o, t);
        }
    }

    fn set_points(&mut self, i: usize, p: u64)
        requires
            old(self).wf(),
            i < old(self).size(),
            old(self).proven@[i as int] == Some(Proven::Lose) ==> p == 0,
            p <= 2 * old(self).visits@[i as int],
        ensures
            final(self).wf(),
            *final(self) == (Tree { points: final(self).points, ..*old(self) }),
            final(self).points@ == old(self).points@.update(i as int, p),
    {
        self.points.set(i, p);
        proof {
            let t = *self;
            let o = *old(self);
            assert forall|j: int| 0 <= j < t.boards.len() implies #[trigger] t.node_ok(j) by {
                assert(o.node_ok(j));
            }
            Tree::lemma_same_shape(o, t);
        }
    }

    fn set_proven(&mut self, i: usize, r: Option<Proven>)
        requires
            old(self).wf(),
            i < old(self).size(),
            old(self).proven@[i as int] is None,
            old(self).children@[i as int].len() > 0,
            r == Some(Proven::Lose) ==> old(self).points@[i as int] == 0,
        ensures
            final(self).wf(),
            *final(self) == (Tree { proven: final(self).proven, ..*old(self) }),
            final(self).proven@ == old(self).proven@.update(i as int, r),
    {
        self.proven.set(i, r);
        proof {
            let t = *self;
            let o = *old(self);
            assert forall|j: int| 0 <= j < t.boards.len() implies #[trigger] t.node_ok(j) by {
                assert(o.node_ok(j));
            }
            assert forall|j: int, k: int|
                0 <= j < t.boards.len() && 0 <= k < t.children@[j].len() implies #[trigger] t.edge_ok(
                j,
                k,
            ) by {
                assert(o.edge_ok(j, k));
            }
            assert forall|j: int| 0 <= j < t.boards.len() implies #[trigger] t.win_ok(j) by {
                assert(o.win_ok(j));
            }
        }
    }

    fn set_children(&mut self, i: usize, kids: Vec<usize>)
        requires
            old(self).wf(),
            i < old(self).size(),
            kids.len() <= COLS,
            forall|k: int|
                0 <= k < kids.len() ==> #[trigger] kids[k] < old(self).size() && old(self).depth(
                    kids[k] as int,
                ) == old(self).depth(i as int) + 1 && exists|c: int|
                    open_column(old(self).boards@[i as int]@, c) && #[trigger] drop_disc(
                        old(self).boards@[i as int]@,
                        c,
                        old(self).mover(i as int),
                    ) == old(self).boards@[kids[k] as int]@,
            (kids.len() > 0 && exists|c: int|
                winning_move(old(self).boards@[i as int]@, old(self).mover(i as int), c)) ==> {
                &&& kids.len() == 1
                &&& kids[0] < old(self).size()
                &&& old(self).proven@[kids[0] as int] == Some(Proven::Lose)
                &&& exists|c: int|
                    first_winning_move(old(self).boards@[i as int]@, old(self).mover(i as int), c)
                        && #[trigger] drop_disc(old(self).boards@[i as int]@, c, old(self).mover(i as int))
                        == old(self).boards@[kids[0] as int]@
            },
            i == 0 && old(self).proven@[0] is Some ==> kids.len() > 0,
        ensures
            final(self).wf(),
            *final(self) == (Tree { children: final(self).children, ..*old(self) }),
            final(self).children@ == old(self).children@.update(i as int, kids),
    {
        let ghost kv = kids@;
        self.children.set(i, kids);
        proof {
            let t = *self;
            let o = *old(self);
            assert forall|j: int| 0 <= j < t.boards.len() implies #[trigger] t.node_ok(j) by {
                assert(o.node_ok(j));
            }
            assert forall|j: int, k: int|
                0 <= j < t.boards.len() && 0 <= k < t.children@[j].len() implies #[trigger] t.edge_ok(
                j,
                k,
            ) by {
                if j != i {
                    assert(o.edge_ok(j, k));
                } else {
                    assert(t.children@[j]@[k] == kv[k]);
                }
            }
            assert forall|j: int| 0 <= j < t.boards.len() implies #[trigger] t.win_ok(j) by {
                if j != i {
                    assert(o.win_ok(j));
                } else if kv.len() > 0 {
                    assert(t.children@[j]@[0] == kv[0]);
                }
            }
        }
    }

    /// Node `j` of `self` is as in `o`.
    closed spec fn same_node(self, o: Tree, j: int) -> bool {
        &&& self.visits@[j] == o.visits@[j]
        &&& self.points@[j] == o.points@[j]
        &&& self.proven@[j] == o.proven@[j]
        &&& self.children@[j] == o.children@[j]
    }

    /// `self` grew from `o` by appending nodes and by changing nodes at
    /// depth `d` or deeper only, their boards kept and visits not lowered.
    closed spec fn frame(self, o: Tree, d: int) -> bool {
        &&& o.boards.len() <= self.boards.len()
        &&& self.passes == o.passes
        &&& forall|j: int|
            0 <= j < o.boards.len() ==> #[trigger] self.boards@[j] == o.boards@[j]
                && self.visits@[j] >= o.visits@[j]
        &&& forall|j: int|
            0 <= j < o.boards.len() && o.depth(j) < d ==> #[trigger] self.same_node(o, j)
    }

    proof fn lemma_frame_trans(a: Tree, b: Tree, c: Tree, d1: int, d2: int)
        requires
            b.frame(a, d1),
            c.frame(b, d2),
            d1 <= d2,
        ensures
            c.frame(a, d1),
    {
        assert forall|j: int| 0 <= j < a.boards.len() implies #[trigger] c.boards@[j] == a.boards@[j]
            && c.visits@[j] >= a.visits@[j] by {
            assert(b.boards@[j] == a.boards@[j]);
            assert(c.boards@[j] == b.boards@[j]);
        }
        assert forall|j: int| 0 <= j < a.boards.len() && a.depth(j) < d1 implies #[trigger] c.same_node(
            a,
            j,
        ) by {
            assert(b.boards@[j] == a.boards@[j]);
            assert(b.same_node(a, j));
            assert(c.same_node(b, j));
        }
    }

    /// Expands leaf `i`, `side` to move: one child per open column, in
    /// order; at the first move that completes a line, the leaf becomes a
    /// proven win with that move as its only child, a proven loss for the
    /// side to move there, visited once.
    fn expand(&mut self, i: usize, side: Side) -> (won: bool)
        requires
            old(self).wf(),
            i < old(self).size(),
            side == old(self).mover(i as int),
            old(self).proven@[i as int] is None,
            old(self).children@[i as int].len() == 0,
            old(self).size() + 7 <= MAX_NODES + 301,
            1 <= old(self).passes,
            1 <= old(self).visits@[i as int],
            old(self).points@[i as int] + 2 <= 2 * old(self).visits@[i as int],
        ensures
            final(self).wf(),
            final(self).frame(*old(self), old(self).depth(i as int)),
            final(self).size() <= old(self).size() + 7,
            forall|j: int| 0 <= j < old(self).size() ==> #[trigger] final(self).visits@[j] == old(
                self,
            ).visits@[j],
            !won ==> forall|j: int|
                old(self).size() <= j < final(self).size() ==> #[trigger] final(self).visits@[j] == 0,
            !won ==> final(self).points@[i as int] == old(self).points@[i as int],
            !won ==> final(self).proven@[i as int] is None,
            forall|j: int| 0 <= j < old(self).size() && j != i ==> #[trigger] final(self).same_node(*old(self), j),
            won || !grid_full(old(self).boards@[i as int]@) ==> final(self).children@[i as int].len()
                > 0,
            won <==> exists|c: int| winning_move(old(self).boards@[i as int]@, side, c),
            won ==> {
                let k = final(self).children@[i as int]@[0] as int;
                &&& final(self).children@[i as int].len() == 1
                &&& exists|c: int|
                    first_winning_move(old(self).boards@[i as int]@, side, c) && #[trigger] drop_disc(
                        old(self).boards@[i as int]@,
                        c,
                        side,
                    ) == final(self).boards@[k]@
                &&& final(self).visits@[k] == 1
                &&& final(self).proven@[k] == Some(Proven::Lose)
                &&& final(self).proven@[i as int] == Some(Proven::Win)
                &&& final(self).points@[i as int] == old(self).points@[i as int] + WIN_POINTS
            },
            !won ==> exists|cols: Seq<int>|
                {
                    &&& cols.len() == final(self).children@[i as int].len()
                    &&& forall|q: int, m: int| 0 <= q < m < cols.len() ==> cols[q] < cols[m]
                    &&& forall|c: int|
                        open_column(old(self).boards@[i as int]@, c) <==> cols.contains(c)
                    &&& forall|q: int|
                        0 <= q < cols.len() ==> #[trigger] final(self).boards@[final(self).children@[i as int]@[q] as int]@ == drop_disc(
                            old(self).boards@[i as int]@,
                            cols[q],
                            side,
                        )
                },
    {
        let ghost o = *self;
        let board = self.boards[i];
        proof {
            assert(o.node_ok(i as int));
            board.lemma_grid_valid();
        }
        let can = board.list_can_put();
        let mut kids: Vec<usize> = Vec::new();
        let mut m: usize = 0;
        while m < can.len()
            invariant
                o == *old(self),
                self.wf(),
                i < o.size(),
                board == o.boards@[i as int],
                board.wf(),
                valid_grid(board@),
                side == o.mover(i as int),
                side == side_to_move(board@),
                o.proven@[i as int] is None,
                o.children@[i as int].len() == 0,
                can.len() <= COLS,
                forall|q: int, r: int| 0 <= q < r < can.len() ==> can[q] < can[r],
                forall|q: int| 0 <= q < can.len() ==> open_column(board@, #[trigger] can[q] as int),
                forall|c: int| open_column(board@, c) ==> can@.contains(c as usize),
                forall|q: int| 0 <= q < m ==> !winning_move(board@, side, #[trigger] can[q] as int),
                m <= can.len(),
                kids.len() == m,
                self.size() == o.size() + m,
                o.size() + 7 <= MAX_NODES + 301,
                self.frame(o, o.depth(i as int) + 1),
                forall|j: int| 0 <= j < o.size() ==> #[trigger] self.same_node(o, j),
                forall|j: int| o.size() <= j < self.size() ==> #[trigger] self.visits@[j] == 0,
                forall|k: int|
                    0 <= k < kids.len() ==> #[trigger] kids[k] < self.size() && self.depth(
                        kids[k] as int,
                    ) == o.depth(i as int) + 1 && drop_disc(board@, can[k] as int, side)
                        == self.boards@[kids[k] as int]@,
                1 <= o.passes,
                o.node_ok(i as int),
                1 <= o.visits@[i as int],
                o.points@[i as int] + 2 <= 2 * o.visits@[i as int],
            decreases can.len() - m,
        {
            let col = can[m];
            let mut b = board;
            proof {
                lemma_turn_alternates(board@, col as int, side);
                assert(open_column(board@, col as int));
            }
            let won = b.put(col, side);
            let ghost prev = *self;
            proof {
                assert(self.same_node(o, i as int));
                assert(self.boards@[i as int] == o.boards@[i as int]);
            }
            if won {
                let idx = self.push_node(b, 1, Some(Proven::Lose));
                let ghost t1 = *self;
                proof {
                    assert(self.boards@[idx as int] == b);
                    assert(prev.same_node(o, i as int));
                    assert(self.visits@[i as int] == prev.visits@[i as int]);
                    assert(self.points@[i as int] == prev.points@[i as int]);
                    assert(self.proven@[i as int] == prev.proven@[i as int]);
                    assert(self.boards@[i as int] == prev.boards@[i as int]);
                    assert(winning_move(board@, side, col as int));
                    assert forall|d: int| 0 <= d < col implies !#[trigger] winning_move(board@, side, d) by {
                        if open_column(board@, d) {
                            assert(can@.contains(d as usize));
                            let q = choose|q: int| 0 <= q < can.len() && can@[q] == d as usize;
                            if q >= m {
                                assert(can[q] >= can[m as int]);
                            }
                        }
                    }
                    assert(first_winning_move(board@, side, col as int));
                    assert(drop_disc(board@, col as int, side) == self.boards@[idx as int]@);
                }
                let mut one: Vec<usize> = Vec::new();
                one.push(idx);
                self.set_children(i, one);
                self.set_proven(i, Some(Proven::Win));
                let p = self.points[i] + WIN_POINTS;
                self.set_points(i, p);
                proof {
                    assert forall|j: int| 0 <= j < o.size() implies #[trigger] self.boards@[j]
                        == o.boards@[j] && self.visits@[j] >= o.visits@[j] by {
                        assert(prev.boards@[j] == o.boards@[j]);
                        assert(prev.same_node(o, j));
                        assert(t1.boards@[j] == prev.boards@[j]);
                    }
                    assert forall|j: int| 0 <= j < o.size() && o.depth(j) < o.depth(i as int) implies #[trigger] self.same_node(
                        o,
                        j,
                    ) by {
                        assert(prev.same_node(o, j));
                    }
                    assert forall|j: int| 0 <= j < o.size() implies #[trigger] self.visits@[j]
                        == o.visits@[j] by {
                        assert(prev.same_node(o, j));
                    }
                    assert(self.children@[i as int]@[0] == idx);
                    assert(self.boards@[idx as int] == b);
                    assert(self.visits@[idx as int] == 1);
                    assert(self.proven@[idx as int] == Some(Proven::Lose));
                    assert(drop_disc(board@, col as int, side) == self.boards@[idx as int]@);
                    assert forall|j: int| 0 <= j < o.size() && j != i implies #[trigger] self.same_node(o, j) by {
                        assert(prev.same_node(o, j));
                    }
                }
                return true;
            }
            let idx = self.push_node(b, 0, None);
            proof {
                assert(self.boards@[idx as int] == b);
                assert(disc_count(b@) == disc_count(board@) + 1);
                assert(!winning_move(board@, side, col as int));
                assert forall|j: int| 0 <= j < o.size() implies #[trigger] self.same_node(o, j) by {
                    assert(prev.same_node(o, j));
                }
                assert forall|j: int| o.size() <= j < self.size() implies #[trigger] self.visits@[j] == 0 by {
                    if j < prev.size() {
                        assert(prev.visits@[j] == 0);
                    }
                }
                assert forall|j: int| 0 <= j < o.size() implies #[trigger] self.boards@[j] == o.boards@[j]
                    && self.visits@[j] >= o.visits@[j] by {
                    assert(prev.boards@[j] == o.boards@[j]);
                    assert(prev.same_node(o, j));
                }
                assert forall|j: int| 0 <= j < o.size() && o.depth(j) < o.depth(i as int) + 1 implies #[trigger] self.same_node(
                    o,
                    j,
                ) by {
                    assert(prev.same_node(o, j));
                }
                assert forall|k: int| 0 <= k < kids.len() implies #[trigger] kids[k] < self.size() && self.depth(
                    kids[k] as int,
                ) == o.depth(i as int) + 1 && drop_disc(board@, can[k] as int, side)
                    == self.boards@[kids[k] as int]@ by {
                    assert(prev.boards@[kids[k] as int] == self.boards@[kids[k] as int]);
                }
            }
            kids.push(idx);
            m += 1;
        }
        let ghost prev = *self;
        proof {
            assert(self.depth(i as int) == o.depth(i as int)) by {
                assert(self.boards@[i as int] == o.boards@[i as int]);
            }
            assert(self.same_node(o, i as int));
            assert forall|c: int| !winning_move(board@, side, c) by {
                if open_column(board@, c) {
                    assert(can@.contains(c as usize));
                    let q = choose|q: int| 0 <= q < can.len() && can@[q] == c as usize;
                    assert(!winning_move(board@, side, can[q] as int));
                }
            }
            assert forall|k: int| 0 <= k < kids.len() implies #[trigger] kids[k] < self.size() && self.depth(
                kids[k] as int,
            ) == self.depth(i as int) + 1 && exists|c: int|
                open_column(self.boards@[i as int]@, c) && #[trigger] drop_disc(
                    self.boards@[i as int]@,
                    c,
                    self.mover(i as int),
                ) == self.boards@[kids[k] as int]@ by {
                assert(open_column(board@, can[k] as int));
                assert(drop_disc(board@, can[k] as int, side) == self.boards@[kids[k] as int]@);
            }
        }
        let ghost kv = kids@;
        self.set_children(i, kids);
        proof {
            assert forall|j: int| 0 <= j < o.size() && o.depth(j) < o.depth(i as int) implies #[trigger] self.same_node(
                o,
                j,
            ) by {
                assert(prev.same_node(o, j));
            }
            assert forall|j: int| 0 <= j < o.size() implies #[trigger] self.visits@[j] == o.visits@[j] by {
                assert(prev.same_node(o, j));
            }
            assert(prev.same_node(o, i as int));
            if !grid_full(board@) {
                let c = choose|c: int| 0 <= c < COLS && #[trigger] board@[c].len() != 6;
                assert(open_column(board@, c));
                assert(can@.contains(c as usize));
            }
            let cols = can@.map_values(|c: usize| c as int);
            assert forall|c: int| open_column(board@, c) <==> cols.contains(c) by {
                if open_column(board@, c) {
                    assert(can@.contains(c as usize));
                    let q = choose|q: int| 0 <= q < can.len() && can@[q] == c as usize;
                    assert(cols[q] == c);
                }
                if cols.contains(c) {
                    let q = choose|q: int| 0 <= q < cols.len() && cols[q] == c;
                    assert(open_column(board@, can[q] as int));
                }
            }
            assert(self.children@[i as int]@ == kv);
            assert forall|q: int| 0 <= q < cols.len() implies #[trigger] self.boards@[self.children@[i as int]@[q] as int]@
                == drop_disc(board@, cols[q], side) by {
                assert(prev.boards@[kv[q] as int] == self.boards@[kv[q] as int]);
            }
        }
        proof {
            assert forall|j: int| 0 <= j < o.size() && j != i implies #[trigger] self.same_node(o, j) by {
                assert(prev.same_node(o, j));
            }
        }
        false
    }

    /// A pass at node `i` plays a random game there: the node is unproven
    /// and a leaf, and either has at most `thr` visits with this one or
    /// has a full board.
    pub closed spec fn simulates(self, i: int, thr: u32) -> bool {
        &&& self.proven@[i] is None
        &&& self.children@[i].len() == 0
        &&& (self.visits@[i] + 1 <= thr || grid_full(self.boards@[i]@))
    }

    /// A pass at node `i` expands it.
    pub closed spec fn expands(self, i: int, thr: u32) -> bool {
        &&& self.proven@[i] is None
        &&& self.children@[i].len() == 0
        &&& self.visits@[i] + 1 > thr
        &&& !grid_full(self.boards@[i]@)
    }

    /// Node `i` was expanded from board `b` with `side` to move by the
    /// first move that completes a line: its only child is the board after
    /// that move, a proven loss visited once, and the node is a proven win
    /// with two more points than `old_points`.
    pub closed spec fn collapsed(self, i: int, b: Seq<Seq<Side>>, side: Side, old_points: int) -> bool {
        let k = self.children@[i]@[0] as int;
        &&& self.children@[i].len() == 1
        &&& exists|c: int| first_winning_move(b, side, c) && #[trigger] drop_disc(b, c, side) == self.boards@[k]@
        &&& self.visits@[k] == 1
        &&& self.proven@[k] == Some(Proven::Lose)
        &&& self.proven@[i] == Some(Proven::Win)
        &&& self.points@[i] == old_points + WIN_POINTS
    }

    /// The children of node `i` are the boards after `side` moves into
    /// each open column of `b`, in increasing order of column.
    pub closed spec fn moves_from(self, i: int, b: Seq<Seq<Side>>, side: Side) -> bool {
        exists|cols: Seq<int>|
            {
                &&& cols.len() == self.children@[i].len()
                &&& forall|q: int, m: int| 0 <= q < m < cols.len() ==> cols[q] < cols[m]
                &&& forall|c: int| open_column(b, c) <==> cols.contains(c)
                &&& forall|q: int|
                    0 <= q < cols.len() ==> #[trigger] self.boards@[self.children@[i]@[q] as int]@
                        == drop_disc(b, cols[q], side)
            }
    }

    /// Some child of node `i` is a proven loss for its mover.
    pub closed spec fn child_lost(self, i: int) -> bool {
        exists|q: int|
            0 <= q < self.children@[i].len() && #[trigger] self.proven@[self.children@[i]@[q] as int]
                == Some(Proven::Lose)
    }

    /// Every child of node `i` is a proven win for its mover.
    pub closed spec fn children_won(self, i: int) -> bool {
        forall|q: int|
            0 <= q < self.children@[i].len() ==> #[trigger] self.proven@[self.children@[i]@[q] as int]
                == Some(Proven::Win)
    }

    /// Node `i` after backing up the points `p` of a pass, with
    /// `old_points` before it: a proven win with two points per visit if a
    /// child is a proven loss; else a proven loss with no points if every
    /// child is a proven win; else unproven, with `p` more points.
    pub closed spec fn backed_up(self, i: int, old_points: int, p: int) -> bool {
        if self.child_lost(i) {
            self.proven@[i] == Some(Proven::Win) && self.points@[i] == 2 * self.visits@[i]
        } else if self.children_won(i) {
            self.proven@[i] == Some(Proven::Lose) && self.points@[i] == 0
        } else {
            self.proven@[i] is None && self.points@[i] == old_points + p
        }
    }

    /// Backs the points `p` of a pass up into node `i`: the node is a proven
    /// win if a child is a proven loss, a proven loss if every child is a
    /// proven win, and else gains `p`.
    fn back_up(&mut self, i: usize, p: u64)
        requires
            old(self).wf(),
            i < old(self).size(),
            p <= WIN_POINTS,
            old(self).proven@[i as int] is None,
            old(self).children@[i as int].len() > 0,
            old(self).visits@[i as int] >= 1,
            old(self).points@[i as int] + 2 <= 2 * old(self).visits@[i as int],
        ensures
            final(self).wf(),
            final(self).boards == old(self).boards,
            final(self).children == old(self).children,
            final(self).passes == old(self).passes,
            final(self).visits == old(self).visits,
            forall|j: int| 0 <= j < old(self).size() && j != i ==> #[trigger] final(self).points@[j] == old(
                self,
            ).points@[j] && final(self).proven@[j] == old(self).proven@[j],
            final(self).backed_up(i as int, old(self).points@[i as int] as int, p as int),
    {
        let ghost o = *self;
        let n_kids = self.children[i].len();
        let mut any_lose = false;
        let mut all_win = true;
        let mut q: usize = 0;
        while q < n_kids
            invariant
                q <= n_kids,
                self.wf(),
                *self == o,
                i < self.size(),
                n_kids == self.children@[i as int].len(),
                any_lose == exists|m: int|
                    0 <= m < q && #[trigger] self.proven@[self.children@[i as int]@[m] as int] == Some(
                        Proven::Lose,
                    ),
                all_win == forall|m: int|
                    0 <= m < q ==> #[trigger] self.proven@[self.children@[i as int]@[m] as int] == Some(
                        Proven::Win,
                    ),
            decreases n_kids - q,
        {
            let c = self.children[i][q];
            proof {
                assert(self.edge_ok(i as int, q as int));
            }
            if c < self.proven.len() {
                match self.proven[c] {
                    Some(Proven::Lose) => {
                        any_lose = true;
                        all_win = false;
                    },
                    Some(Proven::Win) => {},
                    None => {
                        all_win = false;
                    },
                }
            }
            q += 1;
        }
        proof {
            assert(self.node_ok(i as int));
            assert forall|m: int| 0 <= m < n_kids implies self.children@[i as int]@[m] != i by {
                assert(self.edge_ok(i as int, m));
            }
        }
        if any_lose {
            self.set_proven(i, Some(Proven::Win));
            let vi = self.visits[i];
            self.set_points(i, 2 * vi);
        } else if all_win {
            self.set_points(i, 0);
            self.set_proven(i, Some(Proven::Lose));
        } else {
            let pt = self.points[i] + p;
            self.set_points(i, pt);
        }
        proof {
            let t = *self;
            assert(t.children@[i as int] == o.children@[i as int]);
            assert forall|m: int| 0 <= m < n_kids implies #[trigger] t.proven@[t.children@[i as int]@[m] as int]
                == o.proven@[o.children@[i as int]@[m] as int] by {
                assert(o.edge_ok(i as int, m));
                assert(o.children@[i as int]@[m] != i);
            }
            if any_lose {
                let m = choose|m: int|
                    0 <= m < n_kids && #[trigger] o.proven@[o.children@[i as int]@[m] as int] == Some(Proven::Lose);
                assert(t.proven@[t.children@[i as int]@[m] as int] == Some(Proven::Lose));
            } else {
                assert(!t.child_lost(i as int));
                if all_win {
                    assert(t.children_won(i as int));
                } else {
                    let m = choose|m: int|
                        0 <= m < n_kids && !(#[trigger] o.proven@[o.children@[i as int]@[m] as int] == Some(Proven::Win));
                    assert(t.proven@[t.children@[i as int]@[m] as int] != Some(Proven::Win));
                }
            }
        }
    }

    /// The move to play at the root: a child that is a proven loss for the
    /// side to move there is taken first; else the last of the children with
    /// the most visits. Its column is found by replaying each open column
    /// of the root; `None` when the root has no child.
    pub fn best_move(&self) -> (r: Option<Choice>)
        requires
            self.wf(),
        ensures
            self.expanded(0) <==> r is Some,
            match r {
                Some(ch) => {
                    let k = self.best_child();
                    &&& open_column(self.board(0)@, ch.col as int)
                    &&& drop_disc(self.board(0)@, ch.col as int, self.mover(0)) == self.board(k)@
                    &&& ch.visits == self.node_visits(k)
                    &&& ch.points == self.node_points(k)
                    &&& ch.points <= 2 * ch.visits
                },
                None => true,
            },
            self.expanded(0) && (exists|c: int| winning_move(self.board(0)@, self.mover(0), c))
                ==> match r {
                Some(ch) => first_winning_move(self.board(0)@, self.mover(0), ch.col as int)
                    && ch.points == 0,
                None => false,
            },
    {
        let kids = &self.children[0];
        if kids.len() == 0 {
            return None;
        }
        proof {
            assert(self.edge_ok(0, 0));
            assert(self.win_ok(0));
            assert(self.node_ok(0));
            self.boards@[0].lemma_grid_valid();
        }
        let ghost g = self.boards@[0]@;
        let ghost s = side_to_move(g);
        let ghost forced = exists|c: int| winning_move(g, s, c);
        let mut best = kids[0];
        let mut j: usize = 1;
        while j < kids.len()
            invariant
                self.wf(),
                kids@ == self.children@[0]@,
                1 <= j <= kids.len(),
                self.pick_child(j as int, best) == self.best_child(),
                best < self.size(),
                exists|q: int| 0 <= q < kids.len() && kids[q] == best,
                forced ==> kids.len() == 1 && best == kids[0],
            decreases kids.len() - j,
        {
            let y = kids[j];
            proof {
                assert(self.edge_ok(0, j as int));
            }
            let ghost old_best = best;
            if !is_lose(self.proven[best]) {
                if is_lose(self.proven[y]) || self.visits[y] >= self.visits[best] {
                    best = y;
                }
            }
            proof {
                assert(self.pick_child(j as int, old_best) == self.pick_child(j + 1, best));
                assert(kids[j as int] == y);
            }
            j += 1;
        }
        let root = self.boards[0];
        let ghost q = choose|q: int| 0 <= q < kids.len() && kids[q] == best;
        proof {
            assert(self.edge_ok(0, q));
            assert(self.node_ok(best as int));
        }
        let ghost cstar: int = choose|c: int|
            open_column(g, c) && #[trigger] drop_disc(g, c, self.mover(0)) == self.boards@[best as int]@;
        let side = root.calc_next();
        let mut col: usize = 0;
        while col < COLS
            invariant
                root.wf(),
                root == self.boards@[0],
                g == root@,
                valid_grid(g),
                s == side,
                s == side_to_move(g),
                s == self.mover(0),
                self.wf(),
                best < self.size(),
                best == self.best_child(),
                self.node_ok(best as int),
                col <= COLS,
                0 <= col <= cstar < COLS,
                open_column(g, cstar),
                drop_disc(g, cstar, s) == self.boards@[best as int]@,
                forced == exists|c: int| winning_move(g, s, c),
                forced ==> best == self.children@[0]@[0],
                self.children@[0].len() > 0,
            decreases COLS - col,
        {
            if root.can_put(col) {
                let mut b = root;
                let _ = b.put(col, side);
                proof {
                    if col == cstar {
                        crate::board::lemma_grid_determines_board(b, self.boards@[best as int]);
                    }
                }
                if b == self.boards[best] {
                    proof {
                        assert(b@ == self.boards@[best as int]@);
                        if forced {
                            assert(self.win_ok(0));
                            let cw = choose|c: int|
                                first_winning_move(g, s, c) && #[trigger] drop_disc(g, c, s)
                                    == self.boards@[best as int]@;
                            assert(drop_disc(g, col as int, s)[col as int].len() == g[col as int].len() + 1);
                            if col != cw {
                                assert(drop_disc(g, cw, s)[col as int] == g[col as int]);
                            }
                            assert(col == cw);
                        }
                    }
                    return Some(Choice { col, visits: self.visits[best], points: self.points[best] });
                }
            }
            col += 1;
        }
        None
    }

    /// The child chosen at the root after looking at the children from the
    /// `j`-th on, `best` chosen so far: a proven loss for its mover stays
    /// chosen; else a child that is one, or that has at least as many
    /// visits, is taken.
    closed spec fn pick_child(self, j: int, best: usize) -> usize
        decreases self.children@[0].len() - j,
    {
        if j >= self.children@[0].len() || j < 0 {
            best
        } else {
            let y = self.children@[0]@[j];
            let next = if self.proven@[best as int] != Some(Proven::Lose) && (self.proven@[y as int]
                == Some(Proven::Lose) || self.visits@[y as int] >= self.visits@[best as int]) {
                y
            } else {
                best
            };
            self.pick_child(j + 1, next)
        }
    }

    /// The child chosen at the root: the first child that is a proven loss
    /// for its mover, else the last of the children with the most visits.
    pub closed spec fn best_child(self) -> int {
        self.pick_child(1, self.children@[0]@[0]) as int
    }

    /// Appends a fresh node for `board`.
    fn push_node(&mut self, board: BitBoard, visits: u64, proven: Option<Proven>) -> (r: usize)
        requires
            old(self).wf(),
            board.wf(),
            visits <= old(self).passes,
            old(self).size() < usize::MAX,
        ensures
            final(self).wf(),
            r == old(self).size(),
            final(self).size() == old(self).size() + 1,
            final(self).passes == old(self).passes,
            final(self).boards@ == old(self).boards@.push(board),
            final(self).visits@ == old(self).visits@.push(visits),
            final(self).points@ == old(self).points@.push(0),
            final(self).proven@ == old(self).proven@.push(proven),
            final(self).children@ == old(self).children@.push(final(self).children@.last()),
            final(self).children@.last()@ == Seq::<usize>::empty(),
    {
        let r = self.boards.len();
        self.boards.push(board);
        self.visits.push(visits);
        self.points.push(0);
        self.proven.push(proven);
        self.children.push(Vec::new());
        proof {
            let t = *self;
            let o = *old(self);
            assert forall|i: int| 0 <= i < t.boards.len() implies #[trigger] t.node_ok(i) by {
                if i < o.boards.len() {
                    assert(o.node_ok(i));
                }
            }
            assert forall|i: int, k: int|
                0 <= i < t.boards.len() && 0 <= k < t.children@[i].len() implies #[trigger] t.edge_ok(
                i,
                k,
            ) by {
                assert(o.edge_ok(i, k));
            }
            assert forall|i: int| 0 <= i < t.boards.len() implies #[trigger] t.win_ok(i) by {
                if i < o.boards.len() {
                    assert(o.win_ok(i));
                    assert(t.children@[i] == o.children@[i]);
                }
            }
        }
        r
    }
}

/// Monte Carlo tree search with a random source, the number of visits
/// after which a leaf is expanded, and the exploration constant in fixed
/// point.
pub struct McTreeAI<R> {
    rng: R,
    expansion_threshold: u32,
    c: u64,
}

/// A proven loss for the side to move.
fn is_lose(p: Option<Proven>) -> (r: bool)
    ensures
        r == (p == Some(Proven::Lose)),
{
    match p {
        Some(Proven::Lose) => true,
        _ => false,
    }
}

/// Points for `side` of a game that ended with `winner`.
pub open spec fn points_of(winner: Option<Side>, side: Side) -> u64 {
    match winner {
        Some(s) => if s == side {
            WIN_POINTS
        } else {
            LOSE_POINTS
        },
        None => DRAW_POINTS,
    }
}

/// Points of a proven result, for the side to move.
pub open spec fn proven_points(p: Proven) -> u64 {
    match p {
        Proven::Win => WIN_POINTS,
        Proven::Lose => LOSE_POINTS,
    }
}

/// Points for `side` of a random game that ended with `winner`.
fn game_points(winner: Option<Side>, side: Side) -> (r: u64)
    ensures
        r == points_of(winner, side),
{
    match winner {
        Some(s) => if s == side {
            WIN_POINTS
        } else {
            LOSE_POINTS
        },
        None => DRAW_POINTS,
    }
}

impl<R: RandomSource> McTreeAI<R> {
    pub closed spec fn exploration(&self) -> u64 {
        self.c
    }

    pub closed spec fn threshold(&self) -> u32 {
        self.expansion_threshold
    }

    pub fn new(rng: R, expansion_threshold: u32, c: u64) -> (r: McTreeAI<R>)
        requires
            c <= C_MAX,
        ensures
            r.exploration() == c,
            r.threshold() == expansion_threshold,
    {
        McTreeAI { rng, expansion_threshold, c }
    }

    /// The child of node `i` to descend into: the first child not yet
    /// visited, else one drawn with probability proportional to its UCB1
    /// weight.
    fn choice_child(&mut self, tree: &Tree, i: usize, log_total: u64) -> (k: usize)
        requires
            tree.wf(),
            i < tree.size(),
            tree.children@[i as int].len() > 0,
            log_total <= LOG_MAX,
            old(self).c <= C_MAX,
        ensures
            final(self).c == old(self).c,
            final(self).expansion_threshold == old(self).expansion_threshold,
            k < tree.children@[i as int].len(),
            (exists|q: int|
                0 <= q < tree.children@[i as int].len() && #[trigger] tree.visits@[tree.children@[i as int]@[q] as int]
                    == 0) ==> tree.visits@[tree.children@[i as int]@[k as int] as int] == 0 && (forall|q: int|
                0 <= q < k ==> #[trigger] tree.visits@[tree.children@[i as int]@[q] as int] != 0)
                && *final(self) == *old(self),
            (forall|q: int|
                0 <= q < tree.children@[i as int].len() ==> #[trigger] tree.visits@[tree.children@[i as int]@[q] as int]
                    != 0) ==> exists|w: Seq<u64>|
                {
                    &&& w.len() == tree.children@[i as int].len()
                    &&& forall|q: int|
                        0 <= q < w.len() ==> #[trigger] is_ucb(
                            w[q],
                            tree.points@[tree.children@[i as int]@[q] as int],
                            tree.visits@[tree.children@[i as int]@[q] as int],
                            log_total,
                            old(self).c,
                        )
                    &&& weight_sum(w, w.len() as int) == 0 ==> k == w.len() - 1
                    &&& weight_sum(w, w.len() as int) > 0 ==> exists|d: int|
                        0 <= d < weight_sum(w, w.len() as int) && #[trigger] lands(w, k as int, d)
                },
    {
        let kids = &tree.children[i];
        proof {
            assert(tree.node_ok(i as int));
        }
        let mut weight: Vec<u64> = Vec::new();
        let mut j: usize = 0;
        while j < kids.len()
            invariant
                tree.wf(),
                i < tree.size(),
                kids@ == tree.children@[i as int]@,
                kids.len() <= COLS,
                j <= kids.len(),
                weight.len() == j,
                log_total <= LOG_MAX,
                self.c <= C_MAX,
                self.c == old(self).c,
                *self == *old(self),
                forall|m: int| 0 <= m < j ==> #[trigger] weight[m] <= 0x100_0000_0000_0000,
                forall|m: int| 0 <= m < j ==> #[trigger] tree.visits@[kids[m] as int] != 0,
                forall|m: int|
                    0 <= m < j ==> #[trigger] is_ucb(
                        weight[m],
                        tree.points@[kids[m] as int],
                        tree.visits@[kids[m] as int],
                        log_total,
                        self.c,
                    ),
            decreases kids.len() - j,
        {
            let ch = kids[j];
            proof {
                assert(tree.edge_ok(i as int, j as int));
                assert(tree.node_ok(ch as int));
            }
            if tree.visits[ch] == 0 {
                return j;
            }
            let w = ucb(tree.points[ch], tree.visits[ch], log_total, self.c);
            weight.push(w);
            j += 1;
        }
        proof {
            lemma_weight_sum_bound(weight@, weight.len() as int, 0x100_0000_0000_0000);
        }
        choice_with_weight(&mut self.rng, &weight)
    }

    /// One selection pass below node `i`, `side` to move there: counts the
    /// visit, then answers from a proven result, or plays a random game at
    /// a leaf visited at most `expansion_threshold` times or with a full
    /// board, or else expands the leaf, descends into a chosen child and
    /// backs its result up. Returns the points of the pass for `side`.
    fn selection(&mut self, tree: &mut Tree, log_total: u64, i: usize, side: Side) -> (r: u64)
        requires
            old(tree).wf(),
            i < old(tree).size(),
            log_total <= LOG_MAX,
            old(self).c <= C_MAX,
            old(tree).size() + 7 * (43 - old(tree).depth(i as int)) <= MAX_NODES + 301,
            side == old(tree).mover(i as int),
            forall|j: int|
                0 <= j < old(tree).size() && old(tree).depth(j) >= old(tree).depth(i as int)
                    ==> #[trigger] old(tree).visits@[j] < old(tree).passes,
        ensures
            final(self).c == old(self).c,
            final(self).expansion_threshold == old(self).expansion_threshold,
            final(tree).wf(),
            r <= WIN_POINTS,
            final(tree).size() <= old(tree).size() + 7 * (43 - old(tree).depth(i as int)),
            final(tree).frame(*old(tree), old(tree).depth(i as int)),
            final(tree).visits@[i as int] == old(tree).visits@[i as int] + 1,
            forall|j: int|
                0 <= j < old(tree).size() && j != i && old(tree).depth(j) <= old(tree).depth(i as int)
                    ==> #[trigger] final(tree).same_node(*old(tree), j),
            old(tree).proven@[i as int] is None && old(tree).children@[i as int].len() > 0 ==> {
                &&& final(tree).children@[i as int] == old(tree).children@[i as int]
                &&& exists|q: int|
                    0 <= q < old(tree).children@[i as int].len() && final(tree).visits@[old(tree).children@[i as int]@[q] as int] >= 1
                        && forall|m: int|
                        0 <= m < old(tree).children@[i as int].len() && old(tree).children@[i as int]@[m]
                            != old(tree).children@[i as int]@[q] ==> #[trigger] final(tree).same_node(
                            *old(tree),
                            old(tree).children@[i as int]@[m] as int,
                        )
            },
            !grid_full(old(tree).boards@[i as int]@) && final(tree).visits@[i as int]
                > old(self).expansion_threshold ==> final(tree).children@[i as int].len() > 0
                || final(tree).proven@[i as int] is Some,
            old(tree).proven@[i as int] matches Some(pv) ==> {
                &&& *final(self) == *old(self)
                &&& r == proven_points(pv)
                &&& final(tree).points@[i as int] == old(tree).points@[i as int] + r
                &&& final(tree).proven@[i as int] == old(tree).proven@[i as int]
                &&& final(tree).children@[i as int] == old(tree).children@[i as int]
            },
            old(tree).simulates(i as int, old(self).expansion_threshold) ==> {
                &&& exists|moves: Seq<int>|
                    is_game(old(tree).boards@[i as int]@, side, moves) && r == points_of(
                        game_winner(old(tree).boards@[i as int]@, side, moves),
                        side,
                    )
                &&& final(tree).points@[i as int] == old(tree).points@[i as int] + r
                &&& final(tree).proven@[i as int] is None
                &&& final(tree).children@[i as int].len() == 0
            },
            old(tree).expands(i as int, old(self).expansion_threshold) ==> if exists|c: int|
                winning_move(old(tree).boards@[i as int]@, side, c) {
                r == WIN_POINTS && final(tree).collapsed(
                    i as int,
                    old(tree).boards@[i as int]@,
                    side,
                    old(tree).points@[i as int] as int,
                )
            } else {
                final(tree).moves_from(i as int, old(tree).boards@[i as int]@, side)
            },
            old(tree).proven@[i as int] is None && !old(tree).simulates(
                i as int,
                old(self).expansion_threshold,
            ) && !(old(tree).expands(i as int, old(self).expansion_threshold) && exists|c: int|
                winning_move(old(tree).boards@[i as int]@, side, c)) ==> {
                &&& final(tree).backed_up(i as int, old(tree).points@[i as int] as int, r as int)
                &&& exists|q: int|
                    0 <= q < final(tree).children@[i as int].len() && final(tree).visits@[final(tree).children@[i as int]@[q] as int] >= 1
            },
        decreases 42 - old(tree).depth(i as int),
    {
        let ghost o = *tree;
        proof {
            assert(o.node_ok(i as int));
            o.boards@[i as int].lemma_grid_valid();
            lemma_count_bound(o.boards@[i as int]@);
        }
        let v = tree.visits[i] + 1;
        tree.set_visits(i, v);
        let ghost t1 = *tree;
        proof {
            assert forall|j: int| 0 <= j < o.size() && o.depth(j) < o.depth(i as int) implies #[trigger] t1.same_node(
                o,
                j,
            ) by {}
            assert(t1.frame(o, o.depth(i as int)));
        }
        match tree.proven[i] {
            Some(res) => {
                let r = match res {
                    Proven::Win => WIN_POINTS,
                    Proven::Lose => LOSE_POINTS,
                };
                let p = tree.points[i] + r;
                tree.set_points(i, p);
                proof {
                    assert forall|j: int| 0 <= j < o.size() && o.depth(j) < o.depth(i as int) implies #[trigger] tree.same_node(
                        o,
                        j,
                    ) by {}
                }
                return r;
            },
            None => {},
        }
        let board = tree.boards[i];
        if tree.children[i].len() == 0 {
            if v <= self.expansion_threshold as u64 || board.is_full() {
                let r = game_points(random_game(&mut self.rng, &board, side), side);
                let p = tree.points[i] + r;
                tree.set_points(i, p);
                proof {
                    assert forall|j: int| 0 <= j < o.size() && o.depth(j) < o.depth(i as int) implies #[trigger] tree.same_node(
                        o,
                        j,
                    ) by {}
                }
                return r;
            }
            let won = tree.expand(i, side);
            proof {
                assert(t1.depth(i as int) == o.depth(i as int));
                Tree::lemma_frame_trans(o, t1, *tree, o.depth(i as int), o.depth(i as int));
            }
            if won {
                proof {
                    assert forall|j: int| 0 <= j < o.size() && j != i implies #[trigger] tree.same_node(o, j) by {
                        assert(t1.same_node(o, j));
                        assert(tree.same_node(t1, j));
                    }
                }
                return WIN_POINTS;
            }
        }
        let ghost mid = *tree;
        proof {
            assert(mid.frame(o, o.depth(i as int)));
            assert(mid.node_ok(i as int));
            assert(mid.boards@[i as int] == o.boards@[i as int]);
            assert(mid.visits@[i as int] == v);
            assert(mid.points@[i as int] == o.points@[i as int]);
        }
        let k = self.choice_child(tree, i, log_total);
        let ch = tree.children[i][k];
        proof {
            assert(mid.edge_ok(i as int, k as int));
            assert(mid.node_ok(ch as int));
            mid.boards@[ch as int].lemma_grid_valid();
            lemma_count_bound(mid.boards@[ch as int]@);
            assert forall|j: int|
                0 <= j < mid.size() && mid.depth(j) >= mid.depth(ch as int) implies #[trigger] mid.visits@[j]
                < mid.passes by {
                if j < o.size() {
                    assert(mid.boards@[j] == o.boards@[j]);
                }
            }
        }
        proof {
            assert(mid.edge_ok(i as int, k as int));
            let c = choose|c: int|
                open_column(mid.boards@[i as int]@, c) && #[trigger] drop_disc(
                    mid.boards@[i as int]@,
                    c,
                    mid.mover(i as int),
                ) == mid.boards@[ch as int]@;
            assert(mid.mover(i as int) == side);
            lemma_turn_alternates(mid.boards@[i as int]@, c, side);
        }
        let got = self.selection(tree, log_total, ch, side.flip());
        let ghost post = *tree;
        proof {
            Tree::lemma_frame_trans(o, mid, post, o.depth(i as int), o.depth(i as int) + 1);
            assert(post.same_node(mid, i as int));
            assert(post.node_ok(i as int));
        }
        let p = WIN_POINTS - got;
        tree.back_up(i, p);
        proof {
            assert forall|j: int| 0 <= j < o.size() && o.depth(j) < o.depth(i as int) implies #[trigger] tree.same_node(
                o,
                j,
            ) by {
                assert(post.same_node(o, j));
                assert(post.boards@[j] == o.boards@[j]);
                assert(j != i);
                assert(tree.points@[j] == post.points@[j]);
                assert(tree.proven@[j] == post.proven@[j]);
                assert(tree.visits@[j] == post.visits@[j]);
                assert(tree.children@[j] == post.children@[j]);
            }
            assert forall|j: int| 0 <= j < o.size() implies #[trigger] tree.boards@[j] == o.boards@[j]
                && tree.visits@[j] >= o.visits@[j] by {
                assert(post.boards@[j] == o.boards@[j]);
            }
            if o.expands(i as int, self.expansion_threshold) && !exists|c: int|
                winning_move(o.boards@[i as int]@, side, c) {
                assert(mid.moves_from(i as int, o.boards@[i as int]@, side));
                let cols = choose|cols: Seq<int>|
                    {
                        &&& cols.len() == mid.children@[i as int].len()
                        &&& forall|q: int, m: int| 0 <= q < m < cols.len() ==> cols[q] < cols[m]
                        &&& forall|c: int| open_column(o.boards@[i as int]@, c) <==> cols.contains(c)
                        &&& forall|q: int|
                            0 <= q < cols.len() ==> #[trigger] mid.boards@[mid.children@[i as int]@[q] as int]@
                                == drop_disc(o.boards@[i as int]@, cols[q], side)
                    };
                assert(tree.children@[i as int] == mid.children@[i as int]);
                assert forall|q: int| 0 <= q < cols.len() implies #[trigger] tree.boards@[tree.children@[i as int]@[q] as int]@
                    == drop_disc(o.boards@[i as int]@, cols[q], side) by {
                    assert(mid.edge_ok(i as int, q));
                    assert(post.boards@[mid.children@[i as int]@[q] as int] == mid.boards@[mid.children@[i as int]@[q] as int]);
                }
                assert(tree.moves_from(i as int, o.boards@[i as int]@, side));
            }
            assert(tree.frame(o, o.depth(i as int)));
            assert forall|j: int| 0 <= j < mid.size() && j != i implies #[trigger] mid.same_node(o, j) || j >= o.size() by {
                if j < o.size() {
                    assert(t1.same_node(o, j));
                    if o.children@[i as int].len() == 0 {
                        assert(mid.same_node(t1, j));
                    }
                }
            }
            assert forall|j: int|
                0 <= j < o.size() && j != i && o.depth(j) <= o.depth(i as int) implies #[trigger] tree.same_node(o, j) by {
                assert(mid.boards@[j] == o.boards@[j]);
                assert(mid.same_node(o, j));
                assert(j != ch);
                assert(post.same_node(mid, j));
                assert(tree.points@[j] == post.points@[j]);
                assert(tree.same_node(post, j));
            }
            if o.proven@[i as int] is None && o.children@[i as int].len() > 0 {
                assert(mid.children@[i as int] == o.children@[i as int]);
                assert(tree.children@[i as int] == o.children@[i as int]);
                let q = k as int;
                assert(o.children@[i as int]@[q] == ch);
                assert(post.visits@[ch as int] >= 1);
                assert(tree.visits@[ch as int] == post.visits@[ch as int]);
                assert forall|m: int|
                    0 <= m < o.children@[i as int].len() && o.children@[i as int]@[m] != o.children@[i as int]@[q]
                        implies #[trigger] tree.same_node(o, o.children@[i as int]@[m] as int) by {
                    let cm = o.children@[i as int]@[m] as int;
                    assert(o.edge_ok(i as int, m));
                    assert(mid.edge_ok(i as int, m));
                    assert(mid.boards@[cm] == o.boards@[cm]);
                    assert(mid.same_node(o, cm));
                    assert(post.same_node(mid, cm));
                    assert(cm != i);
                    assert(tree.points@[cm] == post.points@[cm]);
                    assert(tree.same_node(post, cm));
                }
            }
        }
        p
    }

    /// One selection pass from the root, with `log_total` the fixed-point
    /// natural logarithm of the number of passes so far, this one included.
    /// The pass is counted and visits the root; every node keeps at most
    /// two points per visit, so its win rate stays between 0 and 1.
    pub fn simulate(&mut self, tree: &mut Tree, log_total: u64) -> (r: u64)
        requires
            old(tree).wf(),
            old(tree).pass_count() < MAX_PASSES,
            old(tree).size() <= MAX_NODES,
            log_total <= LOG_MAX,
            old(self).exploration() <= C_MAX,
        ensures
            final(tree).wf(),
            final(self).exploration() == old(self).exploration(),
            final(tree).pass_count() == old(tree).pass_count() + 1,
            final(tree).node_visits(0) == old(tree).node_visits(0) + 1,
            final(tree).size() >= old(tree).size(),
            final(tree).size() <= old(tree).size() + 301,
            final(tree).board(0) == old(tree).board(0),
            final(tree).node_visits(0) > old(self).threshold() && !grid_full(final(tree).board(0)@)
                ==> final(tree).expanded(0),
            r <= WIN_POINTS,
            old(tree).node_proven(0) matches Some(pv) ==> r == proven_points(pv)
                && final(tree).node_points(0) == old(tree).node_points(0) + r
                && final(tree).node_proven(0) == old(tree).node_proven(0),
            old(tree).simulates(0, old(self).threshold()) ==> {
                &&& exists|moves: Seq<int>|
                    is_game(old(tree).board(0)@, old(tree).mover(0), moves) && r == points_of(
                        game_winner(old(tree).board(0)@, old(tree).mover(0), moves),
                        old(tree).mover(0),
                    )
                &&& final(tree).node_points(0) == old(tree).node_points(0) + r
            },
            old(tree).expands(0, old(self).threshold()) ==> if exists|c: int|
                winning_move(old(tree).board(0)@, old(tree).mover(0), c) {
                r == WIN_POINTS && final(tree).collapsed(
                    0,
                    old(tree).board(0)@,
                    old(tree).mover(0),
                    old(tree).node_points(0) as int,
                )
            } else {
                final(tree).moves_from(0, old(tree).board(0)@, old(tree).mover(0))
            },
            old(tree).node_proven(0) is None && !old(tree).simulates(0, old(self).threshold()) && !(old(
                tree,
            ).expands(0, old(self).threshold()) && exists|c: int|
                winning_move(old(tree).board(0)@, old(tree).mover(0), c)) ==> final(tree).backed_up(
                0,
                old(tree).node_points(0) as int,
                r as int,
            ),
            forall|j: int|
                0 <= j < old(tree).size() ==> #[trigger] final(tree).node_visits(j) >= old(
                    tree,
                ).node_visits(j),
            forall|j: int|
                0 <= j < final(tree).size() ==> #[trigger] final(tree).node_points(j) <= 2
                    * final(tree).node_visits(j),
    {
        tree.passes = tree.passes + 1;
        proof {
            let t = *tree;
            let o = *old(tree);
            assert forall|j: int| 0 <= j < t.boards.len() implies #[trigger] t.node_ok(j) by {
                assert(o.node_ok(j));
            }
            assert forall|j: int, k: int|
                0 <= j < t.boards.len() && 0 <= k < t.children@[j].len() implies #[trigger] t.edge_ok(
                j,
                k,
            ) by {
                assert(o.edge_ok(j, k));
            }
            assert forall|j: int| 0 <= j < t.boards.len() implies #[trigger] t.win_ok(j) by {
                assert(o.win_ok(j));
            }
            assert forall|j: int| 0 <= j < t.size() && t.depth(j) >= t.depth(0) implies #[trigger] t.visits@[j]
                < t.passes by {
                assert(o.node_ok(j));
            }
            assert(t.node_ok(0));
            t.boards@[0].lemma_grid_valid();
            lemma_count_bound(t.boards@[0]@);
        }
        let ghost before = *tree;
        proof {
            assert(before.simulates(0, self.expansion_threshold) == old(tree).simulates(0, self.threshold()));
            assert(before.expands(0, self.expansion_threshold) == old(tree).expands(0, self.threshold()));
            assert(before.mover(0) == old(tree).mover(0));
        }
        let side = tree.boards[0].calc_next();
        let r = self.selection(tree, log_total, 0, side);
        proof {
            assert(side == old(tree).mover(0));
            assert(before.points@[0] == old(tree).points@[0]);
            assert(before.boards@[0] == old(tree).boards@[0]);
            assert(before.proven@[0] == old(tree).proven@[0]);
            if old(tree).simulates(0, self.threshold()) {
                assert(before.simulates(0, self.expansion_threshold));
                assert(tree.points@[0] == before.points@[0] + r);
                assert(before.boards@[0]@ == old(tree).board(0)@);
                assert(exists|moves: Seq<int>|
                    is_game(before.boards@[0]@, side, moves) && r == points_of(
                        game_winner(before.boards@[0]@, side, moves),
                        side,
                    ));
            }
            if old(tree).proven@[0] is None && !old(tree).simulates(0, self.threshold()) && !(old(
                tree,
            ).expands(0, self.threshold()) && exists|c: int|
                winning_move(old(tree).board(0)@, old(tree).mover(0), c)) {
                assert(!before.simulates(0, self.expansion_threshold));
                assert(before.proven@[0] is None);
                assert(before.boards@[0]@ == old(tree).board(0)@);
                assert(!(before.expands(0, self.expansion_threshold) && exists|c: int|
                    winning_move(before.boards@[0]@, side, c)));
                assert(tree.backed_up(0, before.points@[0] as int, r as int));
            }
            let t = *tree;
            assert forall|j: int| 0 <= j < old(tree).size() implies #[trigger] t.node_visits(j)
                >= old(tree).node_visits(j) by {
                assert(t.boards@[j] == before.boards@[j]);
                assert(t.visits@[j] >= before.visits@[j]);
            }
            assert forall|j: int| 0 <= j < t.size() implies #[trigger] t.node_points(j) <= 2
                * t.node_visits(j) by {
                assert(t.node_ok(j));
            }
        }
        r
    }
}

} // verus!
