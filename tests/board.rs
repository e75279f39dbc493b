use tile_solver::board::{Board, MAX_HEIGHT, MAX_WIDTH};
use tile_solver::tile::TileLayout;

fn tile_from(bits: u16) -> TileLayout {
    TileLayout::new_for_test(bits)
}

#[test]
fn test_basic_all_blocked() {
    let b = Board::all_blocked();
    assert_eq!(b.encoded(), 0);
}

#[test]
fn test_basic_blocked_idempotency() {
    let mut b = Board::all_blocked();
    b.set_blocked(0, 0);
    assert_eq!(b.encoded(), 0);
}

#[test]
fn test_basic_set_unblocked() {
    let mut b = Board::all_blocked();
    b.set_unblocked(0, 0);
    assert_eq!(b.encoded(), 1);
    b.set_unblocked(0, 2);
    // This assumes MAX_WIDTH == 5:
    let mask_0_2 = 0x400;
    assert_eq!(b.encoded(), 1 + mask_0_2);
    // Test idempotency
    b.set_unblocked(0, 2);
    assert_eq!(b.encoded(), 1 + mask_0_2);
    // Test set_blocked
    b.set_blocked(0, 0);
    assert_eq!(b.encoded(), mask_0_2);
}

#[test]
fn test_index_mask() {
    assert_eq!(Board::index_mask_for_test(0, 0), 0x00000001);
    assert_eq!(Board::index_mask_for_test(1, 0), 0x00000002);
    assert_eq!(Board::index_mask_for_test(2, 0), 0x00000004);
    assert_eq!(Board::index_mask_for_test(3, 0), 0x00000008);
    assert_eq!(Board::index_mask_for_test(4, 0), 0x00000010);
    assert_eq!(Board::index_mask_for_test(0, 1), 0x00000020);
    assert_eq!(Board::index_mask_for_test(1, 1), 0x00000040);
    assert_eq!(Board::index_mask_for_test(2, 1), 0x00000080);
    assert_eq!(Board::index_mask_for_test(3, 1), 0x00000100);
    assert_eq!(Board::index_mask_for_test(4, 1), 0x00000200);
    assert_eq!(Board::index_mask_for_test(0, 2), 0x00000400);
    assert_eq!(Board::index_mask_for_test(0, 3), 0x00008000);
    assert_eq!(Board::index_mask_for_test(0, 4), 0x00100000);
    assert_eq!(Board::index_mask_for_test(1, 4), 0x00200000);
    assert_eq!(Board::index_mask_for_test(2, 4), 0x00400000);
    assert_eq!(Board::index_mask_for_test(3, 4), 0x00800000);
    assert_eq!(Board::index_mask_for_test(4, 4), 0x01000000);
}

#[test]
fn test_basic_blocked_tile_positive() {
    let mut b = Board::all_blocked();
    b.set_unblocked(0, 0);
    assert_eq!(b.encoded(), 1);
    assert_eq!(
        b.with_blocked_tile(&tile_from(0x0001), 0, 0),
        Some(Board::all_blocked())
    );
}

#[test]
fn test_empty_blocked_tile_positive() {
    let b = Board::all_blocked();
    assert_eq!(b.encoded(), 0);
    assert_eq!(
        b.with_blocked_tile(&tile_from(0x0000), 0, 0),
        Some(Board::all_blocked())
    );
    assert_eq!(
        b.with_blocked_tile(&tile_from(0x0000), 1, 0),
        Some(Board::all_blocked())
    );
    assert_eq!(
        b.with_blocked_tile(&tile_from(0x0000), 3, 3),
        Some(Board::all_blocked())
    );
}

#[test]
fn test_basic_blocked_tile_negative() {
    let mut b = Board::all_blocked();
    b.set_unblocked(0, 0);
    assert_eq!(b.encoded(), 1);
    assert_eq!(b.with_blocked_tile(&tile_from(0x0001), 0, 1), None);
    assert_eq!(b.with_blocked_tile(&tile_from(0x0001), 3, 3), None);
    assert_eq!(b.with_blocked_tile(&tile_from(0x0001), 1, 0), None);
}

#[test]
fn test_two_blocked_tile() {
    let mut b = Board::all_blocked();
    b.set_unblocked(0, 1);
    b.set_unblocked(0, 2);
    assert_eq!(b.with_blocked_tile(&tile_from(0x0011), 0, 0), None);
    assert_eq!(
        b.with_blocked_tile(&tile_from(0x0011), 0, 1),
        Some(Board::all_blocked())
    );
    assert_eq!(b.with_blocked_tile(&tile_from(0x0011), 0, 2), None);
}

#[test]
fn test_from_encoded() {
    // LSB XX···
    //     XX···
    //     XXX·X
    //     XXXXX
    //     ··XXX
    //     ····· MSB
    let b = Board::from_encoded(0x01CFDC63);
    for y in 0..MAX_HEIGHT {
        let row: String = (0..MAX_WIDTH)
            .map(|x| if b.is_blocked_at(x, y) { '·' } else { 'X' })
            .collect();
        println!("{}", row);
    }
    assert!(!b.is_blocked_at(0, 0));
    assert!(!b.is_blocked_at(1, 0));
    assert!(b.is_blocked_at(2, 0));
    assert!(b.is_blocked_at(3, 0));
    assert!(b.is_blocked_at(4, 0));
    assert!(!b.is_blocked_at(0, 1));
    assert!(!b.is_blocked_at(1, 1));
    assert!(b.is_blocked_at(2, 1));
    assert!(b.is_blocked_at(3, 1));
    assert!(b.is_blocked_at(4, 1));
    assert!(!b.is_blocked_at(0, 2));
    assert!(!b.is_blocked_at(1, 2));
    assert!(!b.is_blocked_at(2, 2));
    assert!(b.is_blocked_at(3, 2));
    assert!(!b.is_blocked_at(4, 2));
    assert!(!b.is_blocked_at(0, 3));
    assert!(!b.is_blocked_at(1, 3));
    assert!(!b.is_blocked_at(2, 3));
    assert!(!b.is_blocked_at(3, 3));
    assert!(!b.is_blocked_at(4, 3));
    assert!(b.is_blocked_at(0, 4));
    assert!(b.is_blocked_at(1, 4));
    assert!(!b.is_blocked_at(2, 4));
    assert!(!b.is_blocked_at(3, 4));
    assert!(!b.is_blocked_at(4, 4));
    assert!(b.is_blocked_at(0, 5));
    assert!(b.is_blocked_at(1, 5));
    assert!(b.is_blocked_at(2, 5));
    assert!(b.is_blocked_at(3, 5));
    assert!(b.is_blocked_at(4, 5));
}

#[test]
fn all_blocked_counts_zero_and_unblocking_counts_up() {
    let mut b = Board::all_blocked();
    assert_eq!(b.count_unblocked(), 0);
    let cells = [(0u8, 0u8), (4, 0), (2, 3), (4, 5), (1, 5)];
    for (k, &(x, y)) in cells.iter().enumerate() {
        b.set_unblocked(x, y);
        assert_eq!(b.count_unblocked(), k as u32 + 1);
    }
    // Unblocking an unblocked cell changes nothing.
    b.set_unblocked(2, 3);
    assert_eq!(b.count_unblocked(), 5);
}

#[test]
fn full_board_counts_every_cell() {
    let b = Board::from_encoded(0x3FFF_FFFF);
    assert_eq!(b.count_unblocked(), 30);
    assert!(!b.is_blocked_at(4, 5));
}

#[test]
fn blocking_is_idempotent_on_the_value() {
    let mut b = Board::from_encoded(0x01CFDC63);
    let before = b;
    b.set_blocked(2, 0);
    assert_eq!(b, before);
    b.set_blocked(0, 0);
    assert_eq!(b.encoded(), 0x01CFDC62);
    b.set_blocked(0, 0);
    assert_eq!(b.encoded(), 0x01CFDC62);
}

#[test]
fn placement_blocks_exactly_the_covered_cells() {
    // An L of four cells: (0,0), (0,1), (0,2), (1,2).
    let layout = tile_from(0x0311);
    let b = Board::from_encoded(0x3FFF_FFFF);
    let placed = b.with_blocked_tile(&layout, 3, 2).unwrap();
    assert_eq!(placed.count_unblocked(), 26);
    assert!(placed.is_blocked_at(3, 2));
    assert!(placed.is_blocked_at(3, 3));
    assert!(placed.is_blocked_at(3, 4));
    assert!(placed.is_blocked_at(4, 4));
    assert!(!placed.is_blocked_at(4, 3));
    assert!(!placed.is_blocked_at(2, 4));
    // The board it was placed on is untouched.
    assert_eq!(b.count_unblocked(), 30);
}

#[test]
fn placement_off_the_board_fails() {
    let b = Board::from_encoded(0x3FFF_FFFF);
    // A horizontal bar of four cells does not fit from column 2 on.
    assert_eq!(b.with_blocked_tile(&tile_from(0x000F), 2, 0), None);
    assert!(b.with_blocked_tile(&tile_from(0x000F), 1, 0).is_some());
    // A vertical bar of four cells does not fit from row 3 on.
    assert_eq!(b.with_blocked_tile(&tile_from(0x1111), 0, 3), None);
    assert!(b.with_blocked_tile(&tile_from(0x1111), 0, 2).is_some());
}
