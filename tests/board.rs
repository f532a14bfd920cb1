use connect_four::board::is_win;
use connect_four::Side::{A, B};
use connect_four::{BitBoard, Board, BoardError, Outcome, Side};

fn put(col: usize, side: Side, board: &mut BitBoard) -> (Option<Side>, bool, bool) {
    assert!(board.can_put(col));
    assert_eq!(board.calc_next(), side);
    let t = board.put(col, side);
    (board.calc_winner(), t, board.is_full())
}

#[test]
fn play_0() {
    let mut board = BitBoard::new();
    assert_eq!(put(3, A, &mut board), (None, false, false));
    assert_eq!(put(2, B, &mut board), (None, false, false));
    assert_eq!(put(3, A, &mut board), (None, false, false));
    assert_eq!(put(2, B, &mut board), (None, false, false));
    assert_eq!(put(4, A, &mut board), (None, false, false));
    assert_eq!(put(2, B, &mut board), (None, false, false));
    assert_eq!(put(5, A, &mut board), (None, false, false));
    assert_eq!(put(2, B, &mut board), (Some(B), true, false));
}

#[test]
fn play_1() {
    let mut board = BitBoard::new();
    assert_eq!(put(3, A, &mut board), (None, false, false));
    assert_eq!(put(3, B, &mut board), (None, false, false));
    assert_eq!(put(0, A, &mut board), (None, false, false));
    assert_eq!(put(2, B, &mut board), (None, false, false));
    assert_eq!(put(2, A, &mut board), (None, false, false));
    assert_eq!(put(3, B, &mut board), (None, false, false));
    assert_eq!(put(2, A, &mut board), (None, false, false));
    assert_eq!(put(3, B, &mut board), (None, false, false));
    assert_eq!(put(2, A, &mut board), (None, false, false));
    assert_eq!(put(3, B, &mut board), (Some(B), true, false));
}

#[test]
fn play_2() {
    let mut board = BitBoard::new();
    assert_eq!(put(3, A, &mut board), (None, false, false));
    assert_eq!(put(3, B, &mut board), (None, false, false));
    assert_eq!(put(3, A, &mut board), (None, false, false));
    assert_eq!(put(5, B, &mut board), (None, false, false));
    assert_eq!(put(3, A, &mut board), (None, false, false));
    assert_eq!(put(2, B, &mut board), (None, false, false));
    assert_eq!(put(2, A, &mut board), (None, false, false));
    assert_eq!(put(2, B, &mut board), (None, false, false));
    assert_eq!(put(4, A, &mut board), (None, false, false));
    assert_eq!(put(3, B, &mut board), (None, false, false));
    assert_eq!(put(1, A, &mut board), (None, false, false));
    assert_eq!(put(2, B, &mut board), (None, false, false));
    assert_eq!(put(4, A, &mut board), (None, false, false));
    assert_eq!(put(0, B, &mut board), (None, false, false));
    assert_eq!(put(2, A, &mut board), (None, false, false));
    assert_eq!(put(1, B, &mut board), (None, false, false));
    assert_eq!(put(6, A, &mut board), (None, false, false));
    assert_eq!(put(1, B, &mut board), (None, false, false));
    assert_eq!(put(1, A, &mut board), (None, false, false));
    assert_eq!(put(1, B, &mut board), (None, false, false));
    assert_eq!(put(6, A, &mut board), (None, false, false));
    assert_eq!(put(3, B, &mut board), (None, false, false));
    assert_eq!(put(2, A, &mut board), (None, false, false));
    assert_eq!(put(0, B, &mut board), (Some(B), true, false));
}

#[test]
fn play_3() {
    let mut board = BitBoard::new();
    assert_eq!(put(3, A, &mut board), (None, false, false));
    assert_eq!(put(3, B, &mut board), (None, false, false));
    assert_eq!(put(3, A, &mut board), (None, false, false));
    assert_eq!(put(2, B, &mut board), (None, false, false));
    assert_eq!(put(3, A, &mut board), (None, false, false));
    assert_eq!(put(2, B, &mut board), (None, false, false));
    assert_eq!(put(3, A, &mut board), (None, false, false));
    assert_eq!(put(3, B, &mut board), (None, false, false));
    assert_eq!(put(5, A, &mut board), (None, false, false));
    assert_eq!(put(6, B, &mut board), (None, false, false));
    assert_eq!(put(5, A, &mut board), (None, false, false));
    assert_eq!(put(0, B, &mut board), (None, false, false));
    assert_eq!(put(5, A, &mut board), (None, false, false));
    assert_eq!(put(5, B, &mut board), (None, false, false));
    assert_eq!(put(2, A, &mut board), (None, false, false));
    assert_eq!(put(0, B, &mut board), (None, false, false));
    assert_eq!(put(2, A, &mut board), (None, false, false));
    assert_eq!(put(0, B, &mut board), (None, false, false));
    assert_eq!(put(0, A, &mut board), (None, false, false));
    assert_eq!(put(2, B, &mut board), (None, false, false));
    assert_eq!(put(6, A, &mut board), (None, false, false));
    assert_eq!(put(4, B, &mut board), (None, false, false));
    assert_eq!(put(4, A, &mut board), (Some(A), true, false));
}

#[test]
fn is_full() {
    let mut board = BitBoard::new();
    let mut side = Side::A;
    for col in 0..7 {
        for _ in 0..6 {
            assert!(!board.is_full());
            board.put(col, side);
            side = side.flip();
        }
    }
    assert!(board.is_full());
}

/// Fills column after column, six discs each, the sides alternating within
/// each column; column 3 starts with `B`, the others with `A`, so that no
/// line of four forms.
fn fill_without_line(board: &mut BitBoard, discs: usize) {
    let mut placed = 0;
    for col in 0..7 {
        let mut side = if col == 3 { Side::B } else { Side::A };
        for _ in 0..6 {
            if placed == discs {
                return;
            }
            assert!(!board.put(col, side));
            placed += 1;
            side = side.flip();
        }
    }
}

#[test]
fn filled_board_has_no_winner() {
    let mut board = BitBoard::new();
    fill_without_line(&mut board, 42);
    assert!(board.is_full());
    assert_eq!(board.calc_winner(), None);
    assert!(board.list_can_put().is_empty());
}

#[test]
fn is_full_turns_true_once() {
    let mut board = BitBoard::new();
    let mut turns = 0;
    let mut was_full = board.is_full();
    for n in 1..=42 {
        let mut b = BitBoard::new();
        fill_without_line(&mut b, n);
        let full = b.is_full();
        if full != was_full {
            turns += 1;
        }
        was_full = full;
        board = b;
    }
    assert_eq!(turns, 1);
    assert!(board.is_full());
}

#[test]
fn vertical_four_wins_for_b() {
    let mut board = BitBoard::new();
    let moves = [3, 2, 3, 2, 4, 2, 5, 2];
    let mut side = Side::A;
    let mut last = false;
    for &col in moves.iter() {
        last = board.put(col, side);
        side = side.flip();
    }
    assert!(last);
    assert_eq!(board.calc_winner(), Some(Side::B));
    assert!(!board.is_full());
}

#[test]
fn side_to_move_alternates() {
    let mut board = BitBoard::new();
    let mut expected = Side::A;
    for &col in [0, 1, 1, 6, 3, 3, 3].iter() {
        assert_eq!(board.calc_next(), expected);
        board.put(col, expected);
        assert_eq!(board.calc_next(), expected.flip());
        expected = expected.flip();
    }
}

#[test]
fn flip_swaps_sides() {
    assert_eq!(Side::A.flip(), Side::B);
    assert_eq!(Side::B.flip(), Side::A);
}

#[test]
fn can_put_and_list() {
    let mut board = BitBoard::new();
    assert_eq!(board.list_can_put(), vec![0, 1, 2, 3, 4, 5, 6]);
    for i in 0..6 {
        assert!(board.can_put(4));
        board.put(4, if i % 2 == 0 { Side::A } else { Side::B });
    }
    assert!(!board.can_put(4));
    assert!(!board.can_put(7));
    assert_eq!(board.list_can_put(), vec![0, 1, 2, 3, 5, 6]);
}

#[test]
fn win_masks_of_each_direction() {
    // Horizontal: columns 1 to 4 of row 2.
    let h: u64 = (1 << (8 + 2)) | (1 << (16 + 2)) | (1 << (24 + 2)) | (1 << (32 + 2));
    assert!(is_win(h, 3, 2));
    assert!(!is_win(h, 5, 2));
    // Vertical: rows 1 to 4 of column 6, through each of its cells.
    let v: u64 = 0b11110 << 48;
    assert!(is_win(v, 6, 4));
    assert!(is_win(v, 6, 1));
    assert!(!is_win(v, 6, 0));
    assert!(!is_win(v, 6, 5));
    // Vertical: rows 0 to 3 of column 0, tested at the bottom cell.
    assert!(is_win(0b1111, 0, 0));
    // Rising: (0,0), (1,1), (2,2), (3,3).
    let r: u64 = 0x08040201;
    assert!(is_win(r, 2, 2));
    // Falling: (2,5), (3,4), (4,3), (5,2).
    let f: u64 = (1 << (16 + 5)) | (1 << (24 + 4)) | (1 << (32 + 3)) | (1 << (40 + 2));
    assert!(is_win(f, 4, 3));
    assert!(!is_win(f & !(1 << (40 + 2)), 4, 3));
}

#[test]
fn board_round_trip() {
    let mut board = BitBoard::new();
    let mut side = Side::A;
    for &col in [3, 3, 2, 4, 4, 0, 6, 6, 6].iter() {
        board.put(col, side);
        side = side.flip();
    }
    let cols = board.to_board().columns();
    assert_eq!(cols[3], vec![Side::A, Side::B]);
    assert_eq!(cols[6], vec![Side::A, Side::B, Side::A]);
    let back = BitBoard::from_board(&Board::new(cols.clone()).unwrap());
    assert_eq!(back, board);
    assert_eq!(back.to_board().columns(), cols);
}

#[test]
fn board_refuses_bad_shapes() {
    let six: Vec<Vec<Side>> = vec![Vec::new(); 6];
    assert_eq!(Board::new(six).err(), Some(BoardError::ColumnCount));
    let mut tall: Vec<Vec<Side>> = vec![Vec::new(); 7];
    tall[2] = vec![Side::A; 7];
    assert_eq!(Board::new(tall).err(), Some(BoardError::ColumnTooTall));
    let mut ok: Vec<Vec<Side>> = vec![Vec::new(); 7];
    ok[2] = vec![Side::A; 6];
    assert!(Board::new(ok).is_ok());
}

#[test]
fn winner_read_from_board() {
    let mut cols: Vec<Vec<Side>> = vec![Vec::new(); 7];
    cols[0] = vec![Side::A, Side::A, Side::A, Side::A];
    cols[1] = vec![Side::B, Side::B, Side::B];
    let board = BitBoard::from_board(&Board::new(cols).unwrap());
    assert_eq!(board.calc_winner(), Some(Side::A));
    assert_eq!(board.calc_next(), Side::B);
}

#[test]
fn outcome_of_each_kind() {
    let mut board = BitBoard::new();
    assert_eq!(board.outcome(), Outcome::InProgress);
    for &col in [3, 2, 3, 2, 4, 2, 5, 2].iter() {
        let side = board.calc_next();
        board.put(col, side);
    }
    assert_eq!(board.outcome(), Outcome::Won(Side::B));
    let mut cols: Vec<Vec<Side>> = Vec::new();
    for c in 0..7 {
        let first = if c == 3 { Side::B } else { Side::A };
        let mut col = Vec::new();
        let mut s = first;
        for _ in 0..6 {
            col.push(s);
            s = s.flip();
        }
        cols.push(col);
    }
    let full = BitBoard::from(Board::new(cols).unwrap());
    assert!(full.is_full());
    assert_eq!(full.outcome(), Outcome::Draw);
}
