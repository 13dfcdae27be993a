use chomp3d::Board;
use chomp3d::solver::{initial_state, solve, win, win_parallel, winning_moves, Memo};

#[test]
fn initial_state_reference_shape() {
    let b = Board::new(2, 3, 19).unwrap();
    assert_eq!(initial_state(&b), (1u128 << 114) - 1);
}

#[test]
fn initial_state_full_width() {
    let b = Board::new(4, 4, 8).unwrap();
    assert_eq!(initial_state(&b), u128::MAX);
}

#[test]
fn terminal_state_is_lost() {
    let b = Board::new(2, 3, 19).unwrap();
    let mut memo = Memo::new();
    assert!(!win(&b, 1, &mut memo));
    assert!(!win_parallel(&b, 1));
}

#[test]
fn small_board_end_to_end() {
    let b = Board::new(1, 1, 2).unwrap();
    let s = initial_state(&b);
    assert_eq!(s, 3);
    let mut memo = Memo::new();
    assert!(win(&b, s, &mut memo));
    assert_eq!(winning_moves(&b, s, &mut memo), vec![(0, 0, 1)]);
}

#[test]
fn one_column_board() {
    let b = Board::new(1, 1, 3).unwrap();
    let mut memo = Memo::new();
    assert!(win(&b, 0b111, &mut memo));
    assert_eq!(winning_moves(&b, 0b111, &mut memo), vec![(0, 0, 1)]);
}

#[test]
fn flat_board_winning_move_is_far_corner() {
    let b = Board::new(2, 2, 1).unwrap();
    let s = initial_state(&b);
    assert_eq!(s, 0b1111);
    let mut memo = Memo::new();
    assert!(win(&b, s, &mut memo));
    assert_eq!(winning_moves(&b, s, &mut memo), vec![(1, 1, 0)]);
}

#[test]
fn flat_board_l_shape_is_lost() {
    let b = Board::new(2, 2, 1).unwrap();
    let mut memo = Memo::new();
    assert!(!win(&b, 0b0111, &mut memo));
    assert_eq!(winning_moves(&b, 0b0111, &mut memo), vec![]);
    assert!(!win_parallel(&b, 0b0111));
}

#[test]
fn memo_records_solved_states() {
    let b = Board::new(1, 1, 2).unwrap();
    let mut memo = Memo::new();
    assert_eq!(memo.lookup(3), None);
    assert!(win(&b, 3, &mut memo));
    assert_eq!(memo.lookup(3), Some(true));
    assert_eq!(memo.lookup(1), None);
}

#[test]
fn repeated_calls_agree() {
    let b = Board::new(2, 2, 2).unwrap();
    let s = initial_state(&b);
    let mut memo = Memo::new();
    let first = win(&b, s, &mut memo);
    let again_cached = win(&b, s, &mut memo);
    let mut fresh = Memo::new();
    let again_fresh = win(&b, s, &mut fresh);
    assert_eq!(first, again_cached);
    assert_eq!(first, again_fresh);
    assert_eq!(first, win_parallel(&b, s));
}

#[test]
fn solving_twice_gives_identical_move_lists() {
    let b = Board::new(2, 2, 2).unwrap();
    let (w1, m1) = solve(&b);
    let (w2, m2) = solve(&b);
    assert_eq!(w1, w2);
    assert_eq!(m1, m2);
    assert!(w1);
}

#[test]
fn box_board_is_won() {
    let b = Board::new(2, 3, 4).unwrap();
    let (w, ms) = solve(&b);
    assert!(w);
    assert!(!ms.is_empty());
    for (x, y, z) in &ms {
        assert!(*x < 2 && *y < 3 && *z < 4);
        assert_ne!((*x, *y, *z), (0, 0, 0));
    }
    assert_eq!(win_parallel(&b, initial_state(&b)), w);
}

#[test]
fn parallel_and_memoized_solvers_agree() {
    let b = Board::new(2, 2, 1).unwrap();
    for state in 0u128..16u128 {
        let mut memo = Memo::new();
        assert_eq!(win(&b, state, &mut memo), win_parallel(&b, state));
    }
}
