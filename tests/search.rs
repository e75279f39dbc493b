use tile_solver::board::{Board, MAX_HEIGHT, MAX_WIDTH};
use tile_solver::search::{Operation, State};
use tile_solver::tile::{catalog_tile, Tile};

#[test]
fn test_basic_negative() {
    let tiles: Vec<_> = vec![Tile::new_for_test(vec![0x0001])];
    let mut s = State::new(Board::all_blocked(), &tiles);
    assert_eq!(s.closed_len(), 0);
    assert_eq!(s.open_len(), 1);
    assert!(s.can_step());
    assert_eq!(s.step_single(), None);
    assert!(!s.can_step());
}

#[test]
fn test_basic_positive() {
    let tiles: Vec<_> = vec![Tile::new_for_test(vec![0xFFFF, 0x0001])];
    let mut board = Board::all_blocked();
    board.set_unblocked(2, 3);
    let mut s = State::new(board, &tiles);
    assert_eq!(s.closed_len(), 0);
    assert_eq!(s.open_len(), 1);
    assert!(s.can_step());
    assert_eq!(s.step_single(), None);
    assert_eq!(s.step_single(), Some(vec![Operation::from(0, 1, 2, 3)]));
    assert!(!s.can_step());
}

#[test]
fn test_trivial_positive() {
    let tiles: Vec<_> = vec![Tile::new_for_test(vec![0x0000])];
    let mut s = State::new(Board::all_blocked(), &tiles);
    assert_eq!(s.closed_len(), 0);
    assert_eq!(s.open_len(), 1);
    assert!(s.can_step());
    assert_eq!(s.step_single(), None);
    assert_eq!(
        s.step_single(),
        Some(vec![Operation::from(0, 0, MAX_WIDTH - 1, MAX_HEIGHT - 1)])
    );
    // Will generate many more solutions, one for each possible offset.
    assert!(s.can_step());
}

#[test]
fn test_notiles_positive() {
    let tiles: Vec<Tile> = vec![];
    let mut s = State::new(Board::all_blocked(), &tiles);
    assert_eq!(s.closed_len(), 0);
    assert_eq!(s.open_len(), 1);
    assert!(s.can_step());
    assert_eq!(s.step_single(), Some(vec![]));
    assert!(!s.can_step());
}

#[test]
fn test_basic_positive_multi() {
    let tiles: Vec<_> = vec![Tile::new_for_test(vec![0xFFFF, 0x0001])];
    let mut board = Board::all_blocked();
    board.set_unblocked(2, 3);
    let mut s = State::new(board, &tiles);
    assert_eq!(
        s.step_at_most(5),
        (1, Some(vec![Operation::from(0, 1, 2, 3)]))
    );
    assert!(!s.can_step());
    assert_eq!(s.step_at_most(5), (0, None));
    assert!(!s.can_step());
    // Verify that we do not loop:
    assert_eq!(s.step_at_most(1234567890), (0, None));
}

#[test]
fn test_twotile_positive_multi() {
    let tiles: Vec<_> = vec![
        Tile::new_for_test(vec![0x0011]),
        Tile::new_for_test(vec![0x0311]),
    ];
    let mut board = Board::all_blocked();
    board.set_unblocked(3, 0);
    board.set_unblocked(3, 1);
    board.set_unblocked(3, 2);
    board.set_unblocked(3, 3);
    board.set_unblocked(3, 4);
    board.set_unblocked(4, 4);
    let mut s = State::new(board, &tiles);
    // Operations come in placement order: the L piece, which has a single
    // legal placement, goes first.
    assert_eq!(
        s.step_at_most(5),
        (
            2,
            Some(vec![
                Operation::from(1, 0, 3, 2),
                Operation::from(0, 0, 3, 0),
            ])
        )
    );
    assert_eq!(s.step_at_most(5), (0, None));
    assert!(!s.can_step());
    // Verify that we do not loop:
    assert_eq!(s.step_at_most(1234567890), (0, None));
}

fn sample_tiles() -> Vec<Tile> {
    vec![
        catalog_tile(5),  // three-way pipe
        catalog_tile(6),  // S shape
        catalog_tile(10), // elongated three-way pipe
    ]
}

fn sample_board() -> Board {
    let mut board = Board::all_blocked();
    board.set_unblocked(1, 0);
    board.set_unblocked(2, 0);
    board.set_unblocked(0, 1);
    board.set_unblocked(1, 1);
    board.set_unblocked(2, 1);
    board.set_unblocked(3, 1);
    board.set_unblocked(1, 2);
    board.set_unblocked(2, 2);
    board.set_unblocked(3, 2);
    board.set_unblocked(4, 2);
    board.set_unblocked(1, 3);
    board.set_unblocked(2, 3);
    board
}

#[test]
fn test_sample_easy() {
    let tiles = sample_tiles();
    let mut board = sample_board();
    board.set_unblocked(3, 3);
    let mut s = State::new(board, &tiles);
    assert_eq!(
        s.step_at_most(1000),
        (
            22,
            Some(vec![
                Operation::from(2, 4, 0, 0),
                Operation::from(1, 1, 2, 2),
                Operation::from(0, 1, 2, 0),
                // Visually:
                // ·20··
                // 2200·
                // ·2011
                // ·211·
                // Good!
            ])
        )
    );
    // There is more than one solution
    assert!(s.can_step());
}

#[test]
fn test_sample_easy_negative() {
    let tiles = sample_tiles();
    let mut board = sample_board();
    // (3,3) missing, and (0,0) doesn't help.
    board.set_unblocked(0, 0);
    let mut s = State::new(board, &tiles);
    assert_eq!(s.step_at_most(1000), (29, None));
    assert!(!s.can_step());
}

#[test]
fn split_runs_match_a_single_run() {
    for a in [0usize, 1, 5, 10, 21, 22, 23, 40] {
        for b in [0usize, 1, 3, 30] {
            let tiles = sample_tiles();
            let mut board = sample_board();
            board.set_unblocked(3, 3);

            let mut whole = State::new(board, &tiles);
            let (k_whole, r_whole) = whole.step_at_most(a + b);

            let mut split = State::new(board, &tiles);
            let (k1, r1) = split.step_at_most(a);
            if r1.is_some() {
                assert_eq!((k1, r1), (k_whole, r_whole));
            } else {
                let (k2, r2) = split.step_at_most(b);
                assert_eq!((k1 + k2, r2), (k_whole, r_whole));
            }
            assert_eq!(split.open_len(), whole.open_len());
            assert_eq!(split.closed_len(), whole.closed_len());
        }
    }
}

#[test]
fn empty_layout_keeps_yielding_solutions() {
    let tiles: Vec<_> = vec![Tile::new_for_test(vec![0x0000])];
    let mut board = Board::all_blocked();
    board.set_unblocked(0, 0);
    board.set_unblocked(4, 5);
    let mut s = State::new(board, &tiles);
    assert_eq!(s.step_single(), None);
    assert_eq!(s.open_len(), 30);
    let mut found = 0;
    while s.can_step() {
        let r = s.step_single();
        assert_eq!(r.unwrap().len(), 1);
        found += 1;
    }
    assert_eq!(found, 30);
}

#[test]
fn dead_end_is_dropped_without_expanding() {
    // A domino cannot be placed on a single free cell.
    let tiles: Vec<_> = vec![Tile::new_for_test(vec![0x0003, 0x0011])];
    let mut board = Board::all_blocked();
    board.set_unblocked(1, 1);
    let mut s = State::new(board, &tiles);
    assert_eq!(s.step_at_most(10), (1, None));
    assert_eq!(s.closed_len(), 0);
    assert!(!s.can_step());
}

#[test]
fn zero_budget_does_nothing() {
    let tiles = sample_tiles();
    let mut s = State::new(sample_board(), &tiles);
    assert_eq!(s.step_at_most(0), (0, None));
    assert_eq!(s.open_len(), 1);
    assert_eq!(s.closed_len(), 0);
}
