//! Alpha-beta search: negamax with alpha-beta pruning over the packed
//! board, memoised per depth, with a pluggable evaluator at its leaves.
use std::collections::HashMap;

use vstd::prelude::*;

use crate::board::{
    grid_full, open_column, side_to_move, winning_move, BitBoard, Side, COLS,
};
use crate::playout::{game_winner, is_game, random_game, RandomSource};

verus! {

broadcast use vstd::std_specs::hash::group_hash_axioms;

/// A score, seen by the side to move: a winning rate `win / total` and a
/// drawing rate `draw / total`. Scores are ordered by winning rate, then
/// by drawing rate.
#[derive(Debug, Clone, Copy, PartialEq, Eq, Structural)]
pub struct Score {
    pub win: i64,
    pub draw: i64,
    pub total: i64,
}

/// The depth below which positions are searched exactly; deeper ones are
/// handed to the evaluator.
pub const DEPTH: usize = 3;

impl Score {
    /// Any score that the search handles, the two bounds included.
    pub open spec fn valid(self) -> bool {
        &&& 1 <= self.total <= u32::MAX
        &&& 0 <= self.draw <= self.total
        &&& -self.total <= self.win
        &&& self.win + self.draw <= 2 * self.total
    }

    /// A pair of rates: both at least zero, and together at most one.
    pub open spec fn normal(self) -> bool {
        &&& 1 <= self.total <= u32::MAX
        &&& 0 <= self.win
        &&& 0 <= self.draw
        &&& self.win + self.draw <= self.total
    }

    /// The same result seen by the opponent: the opponent wins what is
    /// neither won nor drawn, and draws the same.
    pub open spec fn flipped(self) -> Score {
        Score { win: (self.total - self.win - self.draw) as i64, draw: self.draw, total: self.total }
    }

    /// Strictly better, comparing the rates as fractions.
    pub open spec fn better(self, o: Score) -> bool {
        ||| self.win * o.total > o.win * self.total
        ||| (self.win * o.total == o.win * self.total && self.draw * o.total > o.draw
            * self.total)
    }

    pub open spec fn top() -> Score {
        Score { win: 2, draw: 0, total: 1 }
    }

    pub open spec fn bottom() -> Score {
        Score { win: -1i64, draw: 0, total: 1 }
    }

    /// Above every other score: what a winning move is worth.
    pub fn highest() -> (r: Score)
        ensures
            r == Score::top(),
    {
        Score { win: 2, draw: 0, total: 1 }
    }

    /// Below every other score.
    pub fn lowest() -> (r: Score)
        ensures
            r == Score::bottom(),
    {
        Score { win: -1, draw: 0, total: 1 }
    }

    /// A certain win.
    pub fn win() -> (r: Score)
        ensures
            r == (Score { win: 1, draw: 0, total: 1 }),
            r == certain_win(),
    {
        Score { win: 1, draw: 0, total: 1 }
    }

    /// A certain loss.
    pub fn lose() -> (r: Score)
        ensures
            r == (Score { win: 0, draw: 0, total: 1 }),
    {
        Score { win: 0, draw: 0, total: 1 }
    }

    /// What a full board is worth: neither a win nor a loss is counted.
    pub fn draw() -> (r: Score)
        ensures
            r == (Score { win: 0, draw: 0, total: 1 }),
            r == full_board_score(),
    {
        Score { win: 0, draw: 0, total: 1 }
    }

    pub fn flip(self) -> (r: Score)
        requires
            self.valid(),
        ensures
            r == self.flipped(),
            r.valid(),
    {
        Score { win: self.total - self.win - self.draw, draw: self.draw, total: self.total }
    }

    /// `self` is strictly better than `o`.
    pub fn gt(&self, o: &Score) -> (r: bool)
        requires
            self.valid(),
            o.valid(),
        ensures
            r == self.better(*o),
    {
        proof {
            lemma_product_bounds(self.win, o.total);
            lemma_product_bounds(o.win, self.total);
            lemma_product_bounds(self.draw, o.total);
            lemma_product_bounds(o.draw, self.total);
        }
        let l = (self.win as i128) * (o.total as i128);
        let r = (o.win as i128) * (self.total as i128);
        if l != r {
            return l > r;
        }
        let l = (self.draw as i128) * (o.total as i128);
        let r = (o.draw as i128) * (self.total as i128);
        l > r
    }
}

proof fn lemma_product_bounds(x: i64, t: i64)
    requires
        -2 * (u32::MAX as int) <= x <= 2 * (u32::MAX as int),
        1 <= t <= u32::MAX,
    ensures
        -4 * (u32::MAX as int) * (u32::MAX as int) <= x * t <= 4 * (u32::MAX as int) * (
        u32::MAX as int),
{
    assert(-4 * (u32::MAX as int) * (u32::MAX as int) <= x * t <= 4 * (u32::MAX as int) * (
    u32::MAX as int)) by (nonlinear_arith)
        requires
            -2 * (u32::MAX as int) <= x <= 2 * (u32::MAX as int),
            1 <= t <= u32::MAX,
    ;
}

/// Facts on the order: a pair of rates lies strictly between the two
/// bounds, and flipping maps rates to rates and swaps the bounds.
proof fn lemma_normal(s: Score)
    requires
        s.normal(),
    ensures
        s.valid(),
        s.flipped().normal(),
        s.better(Score::bottom()),
        Score::top().better(s),
        !s.better(Score::top()),
{
    assert(s.win * 1 > -1 * s.total);
    assert(2 * s.total > s.win * 1);
}

/// A way to score a position at the leaves of the search.
pub trait Eval {
    /// The evaluator is ready to be used.
    spec fn ready(&self) -> bool;

    /// The positions asked so far, each with the score given, in order.
    spec fn answers(&self) -> Seq<(BitBoard, Side, Score)>;

    /// A score of `board` for `side`, the side to move there.
    fn eval(&mut self, board: &BitBoard, side: Side) -> (r: Score)
        requires
            old(self).ready(),
            board.wf(),
        ensures
            final(self).ready(),
            r.normal(),
            final(self).answers() == old(self).answers().push((*board, side, r)),
    ;
}

/// Number of the `games` from `g`, `s` to move, that `s` wins.
pub open spec fn games_won(g: Seq<Seq<Side>>, s: Side, games: Seq<Seq<int>>) -> int
    decreases games.len(),
{
    if games.len() == 0 {
        0
    } else {
        games_won(g, s, games.drop_last()) + if game_winner(g, s, games.last()) == Some(s) {
            1int
        } else {
            0int
        }
    }
}

/// Number of the `games` from `g` that end with a full board.
pub open spec fn games_drawn(g: Seq<Seq<Side>>, s: Side, games: Seq<Seq<int>>) -> int
    decreases games.len(),
{
    if games.len() == 0 {
        0
    } else {
        games_drawn(g, s, games.drop_last()) + if game_winner(g, s, games.last()) == None::<Side> {
            1int
        } else {
            0int
        }
    }
}

/// Scores a position by the results of `n` random games from it.
pub struct Playout<R> {
    rng: R,
    n: u32,
    asked: Ghost<Seq<(BitBoard, Side, Score)>>,
}

impl<R> Playout<R> {
    /// Games per position.
    pub closed spec fn games(&self) -> u32 {
        self.n
    }

    /// The random source.
    pub closed spec fn source(&self) -> R {
        self.rng
    }

    /// The positions scored so far, with their scores.
    pub closed spec fn asked(&self) -> Seq<(BitBoard, Side, Score)> {
        self.asked@
    }

    pub fn new(rng: R, n: u32) -> (r: Playout<R>)
        requires
            n > 0,
        ensures
            r.games() == n,
            r.source() == rng,
            r.asked() == Seq::<(BitBoard, Side, Score)>::empty(),
    {
        Playout { rng, n, asked: Ghost(Seq::empty()) }
    }
}

impl<R: RandomSource> Eval for Playout<R> {
    closed spec fn ready(&self) -> bool {
        self.n > 0
    }

    closed spec fn answers(&self) -> Seq<(BitBoard, Side, Score)> {
        self.asked@
    }

    /// The share of the `n` games won by `side`, and the share drawn, out
    /// of `n`.
    fn eval(&mut self, board: &BitBoard, side: Side) -> (r: Score)
        ensures
            r.total == final(self).games(),
            final(self).games() == old(self).games(),
            final(self).asked() == old(self).asked().push((*board, side, r)),
            grid_full(board@) ==> final(self).source() == old(self).source() && r.win == 0 && r.draw
                == r.total,
            exists|games: Seq<Seq<int>>|
                games.len() == r.total && (forall|k: int|
                    0 <= k < games.len() ==> is_game(board@, side, #[trigger] games[k]))
                    && r.win == games_won(board@, side, games) && r.draw == games_drawn(
                    board@,
                    side,
                    games,
                ),
    {
        let ghost games: Seq<Seq<int>> = Seq::empty();
        let mut win: u32 = 0;
        let mut draw: u32 = 0;
        let mut i: u32 = 0;
        while i < self.n
            invariant
                board.wf(),
                self.n > 0,
                self.n == old(self).n,
                self.asked == old(self).asked,
                grid_full(board@) ==> self.rng == old(self).rng && win == 0 && draw == i,
                i <= self.n,
                win + draw <= i,
                games.len() == i,
                forall|k: int| 0 <= k < games.len() ==> is_game(board@, side, #[trigger] games[k]),
                win == games_won(board@, side, games),
                draw == games_drawn(board@, side, games),
            decreases self.n - i,
        {
            let w = random_game(&mut self.rng, board, side);
            proof {
                let m = choose|m: Seq<int>| is_game(board@, side, m) && w == game_winner(board@, side, m);
                assert(games.push(m).drop_last() =~= games);
                games = games.push(m);
            }
            match w {
                Some(s) => {
                    if s == side {
                        win += 1;
                    }
                },
                None => {
                    draw += 1;
                },
            }
            i += 1;
        }
        let r = Score { win: win as i64, draw: draw as i64, total: self.n as i64 };
        self.asked = Ghost(self.asked@.push((*board, side, r)));
        r
    }
}

/// All scores in the memo are pairs of rates.
pub open spec fn memo_ok(m: Map<u128, Score>) -> bool {
    forall|k: u128| #[trigger] m.contains_key(k) ==> m[k].normal()
}

/// What the evaluator returned during a search, in the shape of the
/// search: the score at a leaf, or the traces of the children searched, in
/// order.
pub enum Trace {
    Leaf(Score),
    Node(Seq<Trace>),
}

/// The memo key of board `b` at `depth`.
pub open spec fn memo_key_of(b: BitBoard, depth: int) -> u128 {
    b.key_of() | ((depth as u128) << 120u128)
}

/// A certain win and a full board, as scores.
pub open spec fn certain_win() -> Score {
    Score { win: 1, draw: 0, total: 1 }
}

pub open spec fn full_board_score() -> Score {
    Score { win: 0, draw: 0, total: 1 }
}

/// The value of `b` for `s` to move at `depth`, with the window
/// `(alpha, beta)`, the memo `memo` and the evaluator's scores `t`; the
/// memo afterwards; and the positions handed to the evaluator, in order,
/// each with its score. At `DEPTH`, the evaluator scores `b` for `s`; a
/// memoised value, or a draw on a full board, asks the evaluator nothing;
/// else the fold over the columns, kept in the memo unless a move
/// completes a line.
pub open spec fn ab_value(
    b: BitBoard,
    s: Side,
    depth: int,
    alpha: Score,
    beta: Score,
    memo: Map<u128, Score>,
    t: Trace,
) -> (Score, Map<u128, Score>, Seq<(BitBoard, Side, Score)>)
    decreases DEPTH - depth, 8int,
{
    if depth >= DEPTH {
        match t {
            Trace::Leaf(v) => (v, memo, seq![(b, s, v)]),
            Trace::Node(_) => (Score::bottom(), memo, Seq::empty()),
        }
    } else if memo.contains_key(memo_key_of(b, depth)) {
        (memo[memo_key_of(b, depth)], memo, Seq::empty())
    } else if grid_full(b@) {
        (full_board_score(), memo, Seq::empty())
    } else {
        let ts = match t {
            Trace::Node(ts) => ts,
            Trace::Leaf(_) => Seq::empty(),
        };
        let f = ab_fold(b, s, depth, 0, alpha, beta, memo, ts, 0);
        if f.2 {
            (certain_win(), f.1, f.3)
        } else {
            (f.0, f.1.insert(memo_key_of(b, depth), f.0), f.3)
        }
    }
}

/// The alpha-beta fold over columns `col..7` of `b`, the `k`-th child
/// searched scored by `ts[k]`: the raised `alpha`, the memo, whether a move
/// completed a line, and the positions handed to the evaluator. Columns go
/// in increasing order; the fold stops once `alpha` reaches `beta`.
pub open spec fn ab_fold(
    b: BitBoard,
    s: Side,
    depth: int,
    col: int,
    alpha: Score,
    beta: Score,
    memo: Map<u128, Score>,
    ts: Seq<Trace>,
    k: int,
) -> (Score, Map<u128, Score>, bool, Seq<(BitBoard, Side, Score)>)
    decreases DEPTH - depth, 7 - col,
{
    if depth >= DEPTH || col >= COLS || col < 0 {
        (alpha, memo, false, Seq::empty())
    } else if !open_column(b@, col) {
        ab_fold(b, s, depth, col + 1, alpha, beta, memo, ts, k)
    } else if winning_move(b@, s, col) {
        (certain_win(), memo, true, Seq::empty())
    } else {
        let c = ab_value(
            b.after_put(col, s),
            s.other(),
            depth + 1,
            beta.flipped(),
            alpha.flipped(),
            memo,
            ts[k],
        );
        let a = c.0.flipped();
        let alpha2 = if a.better(alpha) {
            a
        } else {
            alpha
        };
        if !beta.better(alpha2) {
            (alpha2, c.1, false, c.2)
        } else {
            let f = ab_fold(b, s, depth, col + 1, alpha2, beta, c.1, ts, k + 1);
            (f.0, f.1, f.2, c.2 + f.3)
        }
    }
}

/// The move chosen at the root over columns `col..7`, and the positions
/// handed to the evaluator: a move that completes a line at once, with
/// `top`; else the first column whose flipped child value is strictly
/// greater than all before it, the `k`-th child searched scored by `ts[k]`.
pub open spec fn root_fold(
    b: BitBoard,
    s: Side,
    col: int,
    best: Score,
    best_col: int,
    memo: Map<u128, Score>,
    ts: Seq<Trace>,
    k: int,
) -> (int, Score, Seq<(BitBoard, Side, Score)>)
    decreases 7 - col,
{
    if col >= COLS || col < 0 {
        (best_col, best, Seq::empty())
    } else if !open_column(b@, col) {
        root_fold(b, s, col + 1, best, best_col, memo, ts, k)
    } else if winning_move(b@, s, col) {
        (col, Score::top(), Seq::empty())
    } else {
        let c = ab_value(
            b.after_put(col, s),
            s.other(),
            0,
            Score::bottom(),
            best.flipped(),
            memo,
            ts[k],
        );
        let a = c.0.flipped();
        let f = if a.better(best) {
            root_fold(b, s, col + 1, a, col, c.1, ts, k + 1)
        } else {
            root_fold(b, s, col + 1, best, best_col, c.1, ts, k + 1)
        };
        (f.0, f.1, c.2 + f.2)
    }
}

/// `ts` begins with `pre`.
pub open spec fn extends(ts: Seq<Trace>, pre: Seq<Trace>) -> bool {
    ts.len() >= pre.len() && ts.subrange(0, pre.len() as int) == pre
}

/// The root fold from column 0 agrees with the fold from `col` on, given
/// what was asked before.
pub open spec fn root_on(
    b: BitBoard,
    s: Side,
    tt: Seq<Trace>,
    asked0: Seq<(BitBoard, Side, Score)>,
    asked: Seq<(BitBoard, Side, Score)>,
    col: int,
    best: Score,
    best_col: int,
    memo: Map<u128, Score>,
    k: int,
) -> bool {
    let r0 = root_fold(b, s, 0, Score::bottom(), 0, Map::empty(), tt, 0);
    let rc = root_fold(b, s, col, best, best_col, memo, tt, k);
    r0.0 == rc.0 && r0.1 == rc.1 && asked0 + r0.2 == asked + rc.2
}

/// The same for the fold inside a position.
pub open spec fn fold_on(
    b: BitBoard,
    s: Side,
    depth: int,
    tt: Seq<Trace>,
    asked0: Seq<(BitBoard, Side, Score)>,
    asked: Seq<(BitBoard, Side, Score)>,
    alpha0: Score,
    memo0: Map<u128, Score>,
    col: int,
    alpha: Score,
    beta: Score,
    memo: Map<u128, Score>,
    k: int,
) -> bool {
    let f0 = ab_fold(b, s, depth, 0, alpha0, beta, memo0, tt, 0);
    let fc = ab_fold(b, s, depth, col, alpha, beta, memo, tt, k);
    f0.0 == fc.0 && f0.1 == fc.1 && f0.2 == fc.2 && asked0 + f0.3 == asked + fc.3
}

/// Picks a move for the side to move on a board that is not full: the
/// first move that completes a line, with the score `highest`, if there is
/// one; else the first column whose negamax value, searched to a fixed
/// depth with alpha-beta pruning and scored by `eval` below it, is strictly
/// greater than that of every column before it. The evaluator is asked
/// exactly the positions that this search reaches at its depth bound.
pub fn search<E: Eval>(eval: &mut E, board: &BitBoard) -> (r: (usize, Score))
    requires
        old(eval).ready(),
        board.wf(),
        !grid_full(board@),
    ensures
        final(eval).ready(),
        open_column(board@, r.0 as int),
        winning_move(board@, side_to_move(board@), r.0 as int) <==> r.1 == Score::top(),
        forall|c: int| 0 <= c < r.0 ==> !winning_move(board@, side_to_move(board@), c),
        (exists|c: int| winning_move(board@, side_to_move(board@), c)) ==> r.1 == Score::top(),
        r.1 != Score::top() ==> r.1.normal(),
        exists|ts: Seq<Trace>|
            {
                let f = #[trigger] root_fold(
                    *board,
                    side_to_move(board@),
                    0,
                    Score::bottom(),
                    0,
                    Map::empty(),
                    ts,
                    0,
                );
                &&& f.0 == r.0 as int
                &&& f.1 == r.1
                &&& final(eval).answers() == old(eval).answers() + f.2
            },
{
    let mut mem: HashMap<u128, Score> = HashMap::new();
    let side = board.calc_next();
    let mut best_score = Score::lowest();
    let mut best_col: usize = 0;
    let mut col: usize = 0;
    let ghost g = board@;
    let ghost ts: Seq<Trace> = Seq::empty();
    proof {
        assert forall|tt: Seq<Trace>| extends(tt, ts) implies #[trigger] root_on(
            *board,
            side,
            tt,
            old(eval).answers(),
            eval.answers(),
            col as int,
            best_score,
            best_col as int,
            mem@,
            ts.len() as int,
        ) by {
            assert(old(eval).answers() == eval.answers());
        }
    }
    while col < COLS
        invariant
            eval.ready(),
            board.wf(),
            g == board@,
            side == side_to_move(g),
            !grid_full(g),
            col <= COLS,
            memo_ok(mem@),
            best_score == Score::bottom() || best_score.normal(),
            best_score.normal() ==> open_column(g, best_col as int) && best_col < col,
            best_score == Score::bottom() ==> forall|c: int| 0 <= c < col ==> !open_column(g, c),
            forall|c: int| 0 <= c < col ==> !winning_move(g, side, c),
            forall|tt: Seq<Trace>|
                extends(tt, ts) ==> #[trigger] root_on(
                    *board,
                    side,
                    tt,
                    old(eval).answers(),
                    eval.answers(),
                    col as int,
                    best_score,
                    best_col as int,
                    mem@,
                    ts.len() as int,
                ),
        decreases COLS - col,
    {
        if board.can_put(col) {
            let mut next = *board;
            if next.put(col, side) {
                proof {
                    if best_score.normal() {
                        lemma_normal(best_score);
                    }
                    assert forall|c: int| 0 <= c < col implies !winning_move(g, side, c) by {}
                    assert(extends(ts, ts)) by {
                        assert(ts.subrange(0, ts.len() as int) =~= ts);
                    }
                    assert(root_on(
                        *board,
                        side,
                        ts,
                        old(eval).answers(),
                        eval.answers(),
                        col as int,
                        best_score,
                        best_col as int,
                        mem@,
                        ts.len() as int,
                    ));
                    assert(winning_move(g, side, col as int));
                    assert(eval.answers() + Seq::<(BitBoard, Side, Score)>::empty() =~= eval.answers());
                }
                return (col, Score::highest());
            }
            proof {
                if best_score.normal() {
                    lemma_normal(best_score);
                }
            }
            let ghost asked_in = eval.answers();
            let ghost mem_in = mem@;
            let ghost best_in = best_score;
            let ghost col_in = best_col;
            let ghost k_in = ts.len() as int;
            let ghost ts_in = ts;
            let res = ab_search(
                eval,
                &next,
                side.flip(),
                0,
                &mut mem,
                Score::lowest(),
                best_score.flip(),
            );
            let r = res.0;
            let ghost t = res.1@;
            proof {
                lemma_normal(r);
                lemma_normal(r.flipped());
            }
            let a = r.flip();
            if a.gt(&best_score) {
                best_score = a;
                best_col = col;
            }
            proof {
                let ts2 = ts.push(t);
                assert forall|tt: Seq<Trace>| extends(tt, ts2) implies #[trigger] root_on(
                    *board,
                    side,
                    tt,
                    old(eval).answers(),
                    eval.answers(),
                    col + 1,
                    best_score,
                    best_col as int,
                    mem@,
                    ts2.len() as int,
                ) by {
                    assert(tt.subrange(0, ts_in.len() as int) =~= ts_in);
                    assert(extends(tt, ts_in));
                    assert(root_on(
                        *board,
                        side,
                        tt,
                        old(eval).answers(),
                        asked_in,
                        col as int,
                        best_in,
                        col_in as int,
                        mem_in,
                        k_in,
                    ));
                    assert(tt[k_in] == ts2[k_in]);
                    assert(tt[k_in] == t);
                    let c = ab_value(
                        next,
                        side.other(),
                        0,
                        Score::bottom(),
                        best_in.flipped(),
                        mem_in,
                        t,
                    );
                    let f = root_fold(*board, side, col + 1, best_score, best_col as int, mem@, tt, k_in + 1);
                    assert(asked_in + (c.2 + f.2) =~= (asked_in + c.2) + f.2);
                }
                ts = ts2;
            }
        } else {
            proof {
                assert forall|tt: Seq<Trace>| extends(tt, ts) implies #[trigger] root_on(
                    *board,
                    side,
                    tt,
                    old(eval).answers(),
                    eval.answers(),
                    col + 1,
                    best_score,
                    best_col as int,
                    mem@,
                    ts.len() as int,
                ) by {
                    assert(root_on(
                        *board,
                        side,
                        tt,
                        old(eval).answers(),
                        eval.answers(),
                        col as int,
                        best_score,
                        best_col as int,
                        mem@,
                        ts.len() as int,
                    ));
                }
            }
        }
        col += 1;
    }
    proof {
        if best_score == Score::bottom() {
            assert(grid_full(g)) by {
                assert forall|c: int| 0 <= c < COLS implies #[trigger] g[c].len() == 6 by {
                    board.lemma_grid_valid();
                    assert(!open_column(g, c));
                }
            }
        }
        lemma_normal(best_score);
        assert(extends(ts, ts)) by {
            assert(ts.subrange(0, ts.len() as int) =~= ts);
        }
        assert(root_on(
            *board,
            side,
            ts,
            old(eval).answers(),
            eval.answers(),
            col as int,
            best_score,
            best_col as int,
            mem@,
            ts.len() as int,
        ));
        assert(eval.answers() + Seq::<(BitBoard, Side, Score)>::empty() =~= eval.answers());
    }
    (best_col, best_score)
}

/// The memo key of `board` at `depth`: the two words of the board side by
/// side, and the depth above them.
fn memo_key(board: &BitBoard, depth: usize) -> (r: u128)
    requires
        depth < DEPTH,
    ensures
        r == memo_key_of(*board, depth as int),
{
    board.key() | ((depth as u128) << 120u128)
}

/// Negamax with alpha-beta pruning for `side` to move: exact below
/// `DEPTH`, scored by `eval` at it, each value kept in `mem` for its board
/// and depth. Returns the value and the evaluator's scores it used.
fn ab_search<E: Eval>(
    eval: &mut E,
    board: &BitBoard,
    side: Side,
    depth: usize,
    mem: &mut HashMap<u128, Score>,
    alpha: Score,
    beta: Score,
) -> (r: (Score, Ghost<Trace>))
    requires
        old(eval).ready(),
        board.wf(),
        depth <= DEPTH,
        alpha == Score::bottom() || alpha.normal(),
        beta == Score::top() || beta.normal(),
        memo_ok(old(mem)@),
    ensures
        final(eval).ready(),
        memo_ok(final(mem)@),
        r.0.normal(),
        ({
            let v = ab_value(*board, side, depth as int, alpha, beta, old(mem)@, r.1@);
            &&& r.0 == v.0
            &&& final(mem)@ == v.1
            &&& final(eval).answers() == old(eval).answers() + v.2
        }),
        depth >= DEPTH ==> final(eval).answers() == old(eval).answers().push((*board, side, r.0))
            && final(mem)@ == old(mem)@,
        depth < DEPTH && old(mem)@.contains_key(memo_key_of(*board, depth as int)) ==> r.0 == old(
            mem,
        )@[memo_key_of(*board, depth as int)] && final(mem)@ == old(mem)@ && *final(eval) == *old(
            eval,
        ),
        depth < DEPTH && !old(mem)@.contains_key(memo_key_of(*board, depth as int)) && grid_full(
            board@,
        ) ==> r.0 == full_board_score() && final(mem)@ == old(mem)@ && *final(eval) == *old(eval),
    decreases DEPTH - depth,
{
    if depth >= DEPTH {
        let v = eval.eval(board, side);
        return (v, Ghost(Trace::Leaf(v)));
    }
    let key = memo_key(board, depth);
    match mem.get(&key) {
        Some(s) => {
            proof {
                assert(eval.answers() + Seq::<(BitBoard, Side, Score)>::empty() =~= eval.answers());
            }
            return (*s, Ghost(Trace::Node(Seq::empty())));
        },
        None => {},
    }
    if board.is_full() {
        proof {
            assert(eval.answers() + Seq::<(BitBoard, Side, Score)>::empty() =~= eval.answers());
        }
        return (Score::draw(), Ghost(Trace::Node(Seq::empty())));
    }
    let mut raised = alpha;
    let mut col: usize = 0;
    let ghost g = board@;
    let ghost alpha0 = raised;
    let ghost memo0 = mem@;
    let ghost ts: Seq<Trace> = Seq::empty();
    proof {
        if beta.normal() {
            lemma_normal(beta);
        }
        assert forall|tt: Seq<Trace>| extends(tt, ts) implies #[trigger] fold_on(
            *board,
            side,
            depth as int,
            tt,
            old(eval).answers(),
            eval.answers(),
            alpha0,
            memo0,
            col as int,
            raised,
            beta,
            mem@,
            ts.len() as int,
        ) by {}
    }
    while col < COLS
        invariant
            eval.ready(),
            board.wf(),
            g == board@,
            !grid_full(g),
            depth < DEPTH,
            col <= COLS,
            memo_ok(mem@),
            memo0 == old(mem)@,
            alpha0 == alpha,
            key == memo_key_of(*board, depth as int),
            !memo0.contains_key(key),
            beta == Score::top() || beta.normal(),
            beta.flipped() == Score::bottom() || beta.flipped().normal(),
            raised == Score::bottom() || raised.normal(),
            raised == Score::bottom() ==> forall|c: int| 0 <= c < col ==> !open_column(g, c),
            forall|tt: Seq<Trace>|
                extends(tt, ts) ==> #[trigger] fold_on(
                    *board,
                    side,
                    depth as int,
                    tt,
                    old(eval).answers(),
                    eval.answers(),
                    alpha0,
                    memo0,
                    col as int,
                    raised,
                    beta,
                    mem@,
                    ts.len() as int,
                ),
        decreases COLS - col,
    {
        if board.can_put(col) {
            let mut next = *board;
            if next.put(col, side) {
                proof {
                    assert(extends(ts, ts)) by {
                        assert(ts.subrange(0, ts.len() as int) =~= ts);
                    }
                    assert(fold_on(
                        *board,
                        side,
                        depth as int,
                        ts,
                        old(eval).answers(),
                        eval.answers(),
                        alpha0,
                        memo0,
                        col as int,
                        raised,
                        beta,
                        mem@,
                        ts.len() as int,
                    ));
                    assert(winning_move(g, side, col as int));
                    assert(eval.answers() + Seq::<(BitBoard, Side, Score)>::empty() =~= eval.answers());
                }
                return (Score::win(), Ghost(Trace::Node(ts)));
            }
            proof {
                if raised.normal() {
                    lemma_normal(raised);
                }
            }
            let ghost alpha_in = raised;
            let ghost mem_in = mem@;
            let ghost asked_in = eval.answers();
            let ghost k_in = ts.len() as int;
            let ghost ts_in = ts;
            let res = ab_search(eval, &next, side.flip(), depth + 1, mem, beta.flip(), raised.flip());
            let r = res.0;
            let ghost t = res.1@;
            proof {
                lemma_normal(r);
                lemma_normal(r.flipped());
                if raised.normal() {
                    lemma_normal(raised);
                }
            }
            let a = r.flip();
            if a.gt(&raised) {
                raised = a;
            }
            proof {
                if beta.normal() {
                    lemma_normal(beta);
                }
                lemma_normal(raised);
                let ts2 = ts.push(t);
                assert forall|tt: Seq<Trace>| extends(tt, ts2) implies extends(tt, ts_in) && tt[k_in]
                    == t by {
                    assert(tt.subrange(0, ts_in.len() as int) =~= ts_in);
                    assert(tt[k_in] == ts2[k_in]);
                }
                ts = ts2;
            }
            if !beta.gt(&raised) {
                proof {
                    assert(ts.subrange(0, ts_in.len() as int) =~= ts_in);
                    assert(extends(ts, ts_in));
                    assert(fold_on(
                        *board,
                        side,
                        depth as int,
                        ts,
                        old(eval).answers(),
                        asked_in,
                        alpha0,
                        memo0,
                        col as int,
                        alpha_in,
                        beta,
                        mem_in,
                        k_in,
                    ));
                    assert(ts[k_in] == t);
                }
                mem.insert(key, raised);
                return (raised, Ghost(Trace::Node(ts)));
            }
            proof {
                assert forall|tt: Seq<Trace>| extends(tt, ts) implies #[trigger] fold_on(
                    *board,
                    side,
                    depth as int,
                    tt,
                    old(eval).answers(),
                    eval.answers(),
                    alpha0,
                    memo0,
                    col + 1,
                    raised,
                    beta,
                    mem@,
                    ts.len() as int,
                ) by {
                    assert(extends(tt, ts_in));
                    assert(fold_on(
                        *board,
                        side,
                        depth as int,
                        tt,
                        old(eval).answers(),
                        asked_in,
                        alpha0,
                        memo0,
                        col as int,
                        alpha_in,
                        beta,
                        mem_in,
                        k_in,
                    ));
                    let c = ab_value(
                        next,
                        side.other(),
                        depth + 1,
                        beta.flipped(),
                        alpha_in.flipped(),
                        mem_in,
                        t,
                    );
                    let f = ab_fold(*board, side, depth as int, col + 1, raised, beta, mem@, tt, k_in + 1);
                    assert(asked_in + (c.2 + f.3) =~= (asked_in + c.2) + f.3);
                }
            }
        } else {
            proof {
                assert forall|tt: Seq<Trace>| extends(tt, ts) implies #[trigger] fold_on(
                    *board,
                    side,
                    depth as int,
                    tt,
                    old(eval).answers(),
                    eval.answers(),
                    alpha0,
                    memo0,
                    col + 1,
                    raised,
                    beta,
                    mem@,
                    ts.len() as int,
                ) by {
                    assert(fold_on(
                        *board,
                        side,
                        depth as int,
                        tt,
                        old(eval).answers(),
                        eval.answers(),
                        alpha0,
                        memo0,
                        col as int,
                        raised,
                        beta,
                        mem@,
                        ts.len() as int,
                    ));
                }
            }
        }
        col += 1;
    }
    proof {
        if raised == Score::bottom() {
            assert(grid_full(g)) by {
                assert forall|c: int| 0 <= c < COLS implies #[trigger] g[c].len() == 6 by {
                    board.lemma_grid_valid();
                    assert(!open_column(g, c));
                }
            }
        }
        assert(extends(ts, ts)) by {
            assert(ts.subrange(0, ts.len() as int) =~= ts);
        }
        assert(fold_on(
            *board,
            side,
            depth as int,
            ts,
            old(eval).answers(),
            eval.answers(),
            alpha0,
            memo0,
            col as int,
            raised,
            beta,
            mem@,
            ts.len() as int,
        ));
        assert(eval.answers() + Seq::<(BitBoard, Side, Score)>::empty() =~= eval.answers());
    }
    mem.insert(key, raised);
    (raised, Ghost(Trace::Node(ts)))
}

} // verus!
