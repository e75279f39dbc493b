use std::collections::HashSet;

use tile_solver::tile::TILE_COUNT;
use tile_solver::{
    check_config, compute_result, decode_tile_indices, Result, CELL_TO_TILE_LENGTH, CONFIG_OK,
    VERSION,
};

fn make_result(
    steps_taken: usize,
    has_solution: bool,
    has_finished: bool,
    cell_to_tile: [u8; CELL_TO_TILE_LENGTH],
) -> Result {
    Result {
        steps_taken,
        has_solution,
        has_finished,
        cell_to_tile,
    }
}

#[test]
fn test_decode_tiles() {
    assert_eq!(decode_tile_indices(0x000), vec![]);
    assert_eq!(decode_tile_indices(0x001), vec![11]);
    assert_eq!(decode_tile_indices(0x002), vec![10]);
    assert_eq!(decode_tile_indices(0x004), vec![9]);
    assert_eq!(decode_tile_indices(0x008), vec![8]);
    assert_eq!(decode_tile_indices(0x010), vec![7]);
    assert_eq!(decode_tile_indices(0x020), vec![6]);
    assert_eq!(decode_tile_indices(0x040), vec![5]);
    assert_eq!(decode_tile_indices(0x080), vec![4]);
    assert_eq!(decode_tile_indices(0x100), vec![3]);
    assert_eq!(decode_tile_indices(0x200), vec![2]);
    assert_eq!(decode_tile_indices(0x400), vec![1]);
    assert_eq!(decode_tile_indices(0x800), vec![0]);
    assert_eq!(decode_tile_indices(0x123), vec![3, 6, 10, 11]);
    assert_eq!(
        decode_tile_indices(0xFFF),
        vec![0, 1, 2, 3, 4, 5, 6, 7, 8, 9, 10, 11]
    );
}

#[test]
fn test_simple_positive() {
    assert_eq!(
        // LSB ·XX··
        //     XXXX·
        //     ·XXXX
        //     ·XXX·
        //     ·····
        //     ····· MSB
        compute_result(0x062, 0x000779E6, 100),
        make_result(
            22,
            true,
            false,
            [
                255, 0xA, 0x5, 255, 255,
                0xA, 0xA, 0x5, 0x5, 255,
                255, 0xA, 0x5, 0x6, 0x6,
                255, 0xA, 0x6, 0x6, 255,
                255, 255, 255, 255, 255,
                255, 255, 255, 255, 255,
            ]
        )
    );
}

#[test]
fn test_simple_negative_impossible() {
    assert_eq!(
        // LSB X·X··
        //     XXXX·
        //     ·XXXX
        //     ·XXX·
        //     ·····
        //     ····· MSB
        compute_result(0x062, 0x000779E5, 100),
        make_result(
            17,
            false,
            true,
            [
                255, 255, 255, 255, 255,
                255, 255, 255, 255, 255,
                255, 255, 255, 255, 255,
                255, 255, 255, 255, 255,
                255, 255, 255, 255, 255,
                255, 255, 255, 255, 255,
            ]
        )
    );
}

#[test]
fn test_simple_negative_timeout() {
    assert_eq!(
        // LSB ·XX··
        //     XXXX·
        //     ·XXXX
        //     ·XXX·
        //     ·····
        //     ····· MSB
        compute_result(0x062, 0x000779E6, 10),
        make_result(
            10,
            false,
            false,
            [
                255, 255, 255, 255, 255,
                255, 255, 255, 255, 255,
                255, 255, 255, 255, 255,
                255, 255, 255, 255, 255,
                255, 255, 255, 255, 255,
                255, 255, 255, 255, 255,
            ]
        )
    );
}

#[test]
fn config_agreement_and_each_mismatch() {
    assert_eq!(check_config(VERSION, 5, 6, 4, TILE_COUNT), CONFIG_OK);
    assert_eq!(check_config(42, 5, 6, 4, 12), 134250805);
    assert_eq!(check_config(41, 5, 6, 4, 12), 1);
    assert_eq!(check_config(42, 6, 6, 4, 12), 2);
    assert_eq!(check_config(42, 5, 5, 4, 12), 3);
    assert_eq!(check_config(42, 5, 6, 3, 12), 4);
    assert_eq!(check_config(42, 5, 6, 4, 11), 5);
    // The first field that differs decides.
    assert_eq!(check_config(0, 0, 0, 0, 0), 1);
    assert_eq!(check_config(42, 0, 0, 0, 0), 2);
}

#[test]
fn decoded_selection_round_trips_to_the_mask() {
    for mask in [0u32, 0x001, 0x062, 0x123, 0x800, 0xA5A, 0xFFF, 0x1FFF] {
        let indices = decode_tile_indices(mask);
        let mut reversed = indices.clone();
        reversed.reverse();
        for order in [indices, reversed] {
            let mut rebuilt = 0u32;
            for &k in &order {
                rebuilt |= 1 << (TILE_COUNT - 1 - k);
            }
            assert_eq!(rebuilt, mask & 0xFFF);
            let set: HashSet<usize> = order.iter().copied().collect();
            assert_eq!(set.len(), order.len());
        }
    }
}

#[test]
fn no_selected_tiles_on_an_empty_board_is_solved_at_once() {
    let r = compute_result(0, 0, 5);
    assert_eq!(r, make_result(0, true, true, [255; CELL_TO_TILE_LENGTH]));
}

#[test]
fn single_domino_is_painted_with_its_catalog_index() {
    // Catalog tile 1 is the domino: bit 10 of the selection mask.
    // Cells (0,0) and (1,0) are free.
    let r = compute_result(0x400, 0b11, 10);
    assert!(r.has_solution);
    assert_eq!(r.steps_taken, 1);
    assert!(r.has_finished);
    let mut want = [255u8; CELL_TO_TILE_LENGTH];
    want[0] = 1;
    want[1] = 1;
    assert_eq!(r.cell_to_tile, want);
}
