//! Random games: the source of randomness, a uniformly random game played
//! to its end, and the evaluator that scores a position by such games.
use vstd::prelude::*;

use crate::board::{
    drop_disc, grid_full, lemma_fills_once, lemma_turn_alternates, line_through, open_column,
    valid_grid, disc_count, BitBoard, Side,
};

verus! {

/// A source of random numbers.
pub trait RandomSource {
    /// A number below `n`.
    fn below(&mut self, n: u64) -> (r: u64)
        requires
            n > 0,
        ensures
            r < n,
    ;

    /// One of the columns `cols`.
    fn choose_column(&mut self, cols: &Vec<usize>) -> (r: usize)
        requires
            cols.len() > 0,
        ensures
            cols@.contains(r),
    ;
}

#[verifier::external_type_specification]
#[verifier::external_body]
pub struct ExSmallRng(rand::rngs::SmallRng);

/// Relies on `rand::Rng::gen_range`, which draws from the half-open range
/// `0..n` and panics only on an empty range.
#[verifier::external_body]
fn small_rng_below(rng: &mut rand::rngs::SmallRng, n: u64) -> (r: u64)
    requires
        n > 0,
    ensures
        r < n,
{
    rand::Rng::gen_range(rng, 0..n)
}

/// Relies on `rand::seq::SliceRandom::choose`, which returns an element of
/// a non-empty slice, drawn uniformly, and `None` only for an empty one.
#[verifier::external_body]
fn small_rng_choose(rng: &mut rand::rngs::SmallRng, cols: &Vec<usize>) -> (r: usize)
    requires
        cols.len() > 0,
    ensures
        cols@.contains(r),
{
    *rand::seq::SliceRandom::choose(cols.as_slice(), rng).unwrap()
}

impl RandomSource for rand::rngs::SmallRng {
    fn below(&mut self, n: u64) -> (r: u64) {
        small_rng_below(self, n)
    }

    fn choose_column(&mut self, cols: &Vec<usize>) -> (r: usize) {
        small_rng_choose(self, cols)
    }
}

/// `moves` is a game played from `g` with `s` to move, alternating sides,
/// that ends when a move completes a line or when the board is full.
pub open spec fn is_game(g: Seq<Seq<Side>>, s: Side, moves: Seq<int>) -> bool
    decreases moves.len(),
{
    if moves.len() == 0 {
        grid_full(g)
    } else {
        let c = moves[0];
        open_column(g, c) && if line_through(drop_disc(g, c, s), s, c, g[c].len() as int) {
            moves.len() == 1
        } else {
            is_game(drop_disc(g, c, s), s.other(), moves.drop_first())
        }
    }
}

/// The side that completes a line in the game `moves` from `g`, or `None`
/// if the board fills first.
pub open spec fn game_winner(g: Seq<Seq<Side>>, s: Side, moves: Seq<int>) -> Option<Side>
    decreases moves.len(),
{
    if moves.len() == 0 {
        None
    } else {
        let c = moves[0];
        if line_through(drop_disc(g, c, s), s, c, g[c].len() as int) {
            Some(s)
        } else {
            game_winner(drop_disc(g, c, s), s.other(), moves.drop_first())
        }
    }
}

proof fn lemma_game_step(g: Seq<Seq<Side>>, s: Side, c: int, rest: Seq<int>)
    requires
        open_column(g, c),
        !line_through(drop_disc(g, c, s), s, c, g[c].len() as int),
    ensures
        is_game(g, s, seq![c] + rest) == is_game(drop_disc(g, c, s), s.other(), rest),
        game_winner(g, s, seq![c] + rest) == game_winner(drop_disc(g, c, s), s.other(), rest),
{
    assert((seq![c] + rest).drop_first() =~= rest);
}

/// Plays uniformly random legal moves from `board`, `side` first, until a
/// move completes a line or the board is full; returns the side that
/// completed a line, or `None` for a full board.
pub fn random_game<R: RandomSource>(rng: &mut R, board: &BitBoard, side: Side) -> (r: Option<Side>)
    requires
        board.wf(),
    ensures
        exists|moves: Seq<int>| is_game(board@, side, moves) && r == game_winner(board@, side, moves),
        grid_full(board@) ==> r is None && *final(rng) == *old(rng),
{
    let mut cur = *board;
    let mut s = side;
    let ghost played: Seq<int> = Seq::empty();
    proof {
        cur.lemma_grid_valid();
        assert forall|rest: Seq<int>| #[trigger] is_game(cur@, s, rest) implies is_game(board@, side, played + rest)
            && game_winner(board@, side, played + rest) == game_winner(cur@, s, rest) by {
            assert(played + rest =~= rest);
        }
    }
    loop
        invariant
            cur.wf(),
            valid_grid(cur@),
            grid_full(board@) ==> cur == *board && *rng == *old(rng),
            forall|rest: Seq<int>| #[trigger] is_game(cur@, s, rest) ==> is_game(board@, side, played + rest)
                && game_winner(board@, side, played + rest) == game_winner(cur@, s, rest),
        decreases 42 - disc_count(cur@),
    {
        let can = cur.list_can_put();
        if can.len() == 0 {
            proof {
                assert forall|c: int| 0 <= c < 7 implies #[trigger] cur@[c].len() == 6 by {
                    if !open_column(cur@, c) {
                    } else {
                        assert(can@.contains(c as usize));
                    }
                }
                assert(is_game(cur@, s, Seq::empty()));
                assert(played + Seq::<int>::empty() =~= played);
            }
            return None;
        }
        let col = rng.choose_column(&can);
        let ghost before = cur@;
        proof {
            lemma_turn_alternates(before, col as int, s);
            lemma_fills_once(before, col as int, s);
        }
        let won = cur.put(col, s);
        proof {
            cur.lemma_grid_valid();
        }
        if won {
            proof {
                let m = seq![col as int];
                assert(m.drop_first() =~= Seq::<int>::empty());
                assert(is_game(before, s, m));
                assert(game_winner(before, s, m) == Some(s));
            }
            return Some(s);
        }
        proof {
            assert forall|rest: Seq<int>| #[trigger] is_game(cur@, s.other(), rest) implies is_game(
                board@,
                side,
                played.push(col as int) + rest,
            ) && game_winner(board@, side, played.push(col as int) + rest) == game_winner(
                cur@,
                s.other(),
                rest,
            ) by {
                lemma_game_step(before, s, col as int, rest);
                assert(played.push(col as int) + rest =~= played + (seq![col as int] + rest));
            }
            played = played.push(col as int);
        }
        s = s.flip();
    }
}

} // verus!
