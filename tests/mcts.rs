use connect_four::mcts::{choice_with_weight, isqrt, pick, ucb, LOG_MAX, SCALE};
use connect_four::{BitBoard, McTreeAI, Side, Tree};
use rand::rngs::SmallRng;
use rand::SeedableRng;

fn board_of(moves: &[usize]) -> BitBoard {
    let mut board = BitBoard::new();
    let mut side = Side::A;
    for &col in moves {
        board.put(col, side);
        side = side.flip();
    }
    board
}

/// Runs up to `passes` selection passes, stopping once the root is proven.
fn run(ai: &mut McTreeAI<SmallRng>, tree: &mut Tree, passes: u64) {
    for total in 1..=passes {
        if tree.is_proven() {
            break;
        }
        let log = ((total as f64).ln() * SCALE as f64) as u64;
        ai.simulate(tree, log.min(LOG_MAX));
    }
}

#[test]
fn mcts_takes_the_winning_column() {
    let board = board_of(&[5, 0, 5, 1, 5, 0]);
    let mut ai = McTreeAI::new(SmallRng::seed_from_u64(11), 2, 2 * SCALE);
    let mut tree = Tree::new(&board);
    run(&mut ai, &mut tree, 1000);
    assert!(tree.is_proven());
    let best = tree.best_move().unwrap();
    assert_eq!(best.col, 5);
    assert_eq!(best.points, 0);
    assert!(best.visits >= 1);
}

#[test]
fn mcts_counts_visits_and_keeps_rates() {
    let board = BitBoard::new();
    let mut ai = McTreeAI::new(SmallRng::seed_from_u64(3), 2, 2 * SCALE);
    let mut tree = Tree::new(&board);
    run(&mut ai, &mut tree, 300);
    assert_eq!(tree.passes(), 300);
    let best = tree.best_move().unwrap();
    assert!(board.can_put(best.col));
    assert!(best.visits >= 1);
    assert!(best.points <= 2 * best.visits);
}

#[test]
fn mcts_plays_a_whole_game() {
    let mut ai = McTreeAI::new(SmallRng::seed_from_u64(1), 2, 2 * SCALE);
    let mut board = BitBoard::new();
    let mut side = Side::A;
    while board.calc_winner().is_none() && !board.is_full() {
        let mut tree = Tree::new(&board);
        run(&mut ai, &mut tree, 200);
        let best = tree.best_move().unwrap();
        assert!(board.can_put(best.col));
        assert!(best.points <= 2 * best.visits);
        board.put(best.col, side);
        side = side.flip();
    }
}

#[test]
fn integer_square_root() {
    assert_eq!(isqrt(0), 0);
    assert_eq!(isqrt(1), 1);
    assert_eq!(isqrt(15), 3);
    assert_eq!(isqrt(16), 4);
    assert_eq!(isqrt(1 << 48), 1 << 24);
    assert_eq!(isqrt((1 << 48) - 1), (1 << 24) - 1);
}

#[test]
fn ucb_weight_values() {
    // No exploration: the parent's win rate, 1 - 3 / (2 * 4) = 5/8.
    assert_eq!(ucb(3, 4, 0, 2 * SCALE), SCALE * 5 / 8);
    // ln total = 4, visits = 1, c = 1: 1 + sqrt(4) = 3 (points 0 -> rate 1).
    assert_eq!(ucb(0, 1, 4 * SCALE, SCALE), SCALE + 2 * SCALE);
    // A child that always won leaves only the exploration term.
    assert_eq!(ucb(8, 4, SCALE, SCALE), SCALE / 2);
}

#[test]
fn weighted_choice_skips_zero_weights() {
    let mut rng = SmallRng::seed_from_u64(8);
    for _ in 0..50 {
        let i = choice_with_weight(&mut rng, &vec![0, 5, 0, 1]);
        assert!(i == 1 || i == 3);
    }
    assert_eq!(choice_with_weight(&mut rng, &vec![0, 0, 0]), 2);
    assert_eq!(choice_with_weight(&mut rng, &vec![0, 0, 9]), 2);
}

#[test]
fn pick_finds_the_share_of_a_draw() {
    let w = vec![2, 0, 3, 1];
    assert_eq!(pick(&w, 0), 0);
    assert_eq!(pick(&w, 1), 0);
    assert_eq!(pick(&w, 2), 2);
    assert_eq!(pick(&w, 4), 2);
    assert_eq!(pick(&w, 5), 3);
}

#[test]
fn simulate_adds_the_pass_points_to_the_root() {
    // A wins at once in column 5: the root is expanded on its third pass
    // and becomes a proven win; each pass on it then brings two points.
    let board = board_of(&[5, 0, 5, 1, 5, 0]);
    let mut ai = McTreeAI::new(SmallRng::seed_from_u64(4), 2, 2 * SCALE);
    let mut tree = Tree::new(&board);
    for total in 1..=3u64 {
        let log = ((total as f64).ln() * SCALE as f64) as u64;
        let r = ai.simulate(&mut tree, log);
        assert!(r <= 2);
    }
    assert!(tree.is_proven());
    assert_eq!(ai.simulate(&mut tree, SCALE), 2);
    let best = tree.best_move().unwrap();
    assert_eq!(best.col, 5);
    assert_eq!((best.visits, best.points), (1, 0));
}
