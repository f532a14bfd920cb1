use connect_four::{random_game, search, BitBoard, Eval, Playout, Score, Side};
use rand::rngs::SmallRng;
use rand::SeedableRng;

fn board_of(moves: &[usize]) -> BitBoard {
    let mut board = BitBoard::new();
    let mut side = Side::A;
    for &col in moves {
        board.put(col, side);
        side = side.flip();
    }
    board
}

#[test]
fn alpha_beta_takes_the_winning_column() {
    // A has three in column 5; A to move.
    let board = board_of(&[5, 0, 5, 1, 5, 0]);
    let mut eval = Playout::new(SmallRng::seed_from_u64(7), 20);
    let (col, score) = search(&mut eval, &board);
    assert_eq!(col, 5);
    assert_eq!(score, Score::highest());
}

#[test]
fn alpha_beta_takes_the_first_winning_column() {
    // A can win at column 1 or at column 5 (row 0, columns 1..=5).
    let board = board_of(&[2, 2, 3, 3, 4, 4]);
    let mut eval = Playout::new(SmallRng::seed_from_u64(3), 10);
    let (col, score) = search(&mut eval, &board);
    assert_eq!(col, 1);
    assert_eq!(score, Score::highest());
}

#[test]
fn alpha_beta_is_legal_and_repeatable() {
    let board = board_of(&[3, 3, 3, 3, 3, 3, 2, 4]);
    let mut e1 = Playout::new(SmallRng::seed_from_u64(42), 5);
    let mut e2 = Playout::new(SmallRng::seed_from_u64(42), 5);
    let r1 = search(&mut e1, &board);
    let r2 = search(&mut e2, &board);
    assert!(board.can_put(r1.0));
    assert_eq!(r1, r2);
    assert!(r1.1.win >= 0 && r1.1.draw >= 0 && r1.1.win + r1.1.draw <= r1.1.total);
}

#[test]
fn playout_rates_are_fractions_of_n() {
    let board = board_of(&[3, 3]);
    let mut eval = Playout::new(SmallRng::seed_from_u64(1), 50);
    let s = eval.eval(&board, Side::A);
    assert_eq!(s.total, 50);
    assert!(s.win >= 0 && s.draw >= 0 && s.win + s.draw <= 50);
}

#[test]
fn random_game_on_almost_full_board() {
    // Columns alternate within themselves, column 3 starting with B: no
    // line anywhere. Column 6 lacks its top disc, a B.
    let mut board = BitBoard::new();
    for col in 0..7 {
        let mut side = if col == 3 { Side::B } else { Side::A };
        let n = if col == 6 { 5 } else { 6 };
        for _ in 0..n {
            board.put(col, side);
            side = side.flip();
        }
    }
    assert!(board.calc_winner().is_none());
    let mut rng = SmallRng::seed_from_u64(5);
    assert_eq!(random_game(&mut rng, &board, Side::B), None);
}

#[test]
fn random_game_takes_the_only_move() {
    // A vertical three in column 0 for A; A to play and only column 0
    // remains open once the others are full.
    let mut board = BitBoard::new();
    let mut side = Side::B;
    for col in 1..7 {
        for _ in 0..6 {
            board.put(col, side);
            side = side.flip();
        }
        side = side.flip();
    }
    for _ in 0..3 {
        board.put(0, Side::A);
    }
    let mut rng = SmallRng::seed_from_u64(9);
    assert_eq!(random_game(&mut rng, &board, Side::A), Some(Side::A));
}

#[test]
fn score_order_and_flip() {
    let half = Score { win: 1, draw: 0, total: 2 };
    let third = Score { win: 1, draw: 1, total: 3 };
    assert!(half.gt(&third));
    assert!(!third.gt(&half));
    assert_eq!(third.flip(), Score { win: 1, draw: 1, total: 3 });
    assert_eq!(half.flip(), Score { win: 1, draw: 0, total: 2 });
    assert_eq!(Score::highest().flip(), Score::lowest());
    assert_eq!(Score::win().flip(), Score::lose());
    assert!(Score::highest().gt(&Score::win()));
    assert!(Score::draw().gt(&Score::lowest()));
}

#[test]
fn playout_on_a_full_board_is_all_draws() {
    let mut board = BitBoard::new();
    for col in 0..7 {
        let mut side = if col == 3 { Side::B } else { Side::A };
        for _ in 0..6 {
            board.put(col, side);
            side = side.flip();
        }
    }
    assert!(board.is_full());
    let mut eval = Playout::new(SmallRng::seed_from_u64(2), 9);
    let s = eval.eval(&board, Side::A);
    assert_eq!((s.win, s.draw, s.total), (0, 9, 9));
}
