use std::collections::HashSet;

use tile_solver::tile::{all_tiles, catalog_tile, Tile, TileLayout, MAX_SIZE, TILE_COUNT};

#[test]
fn test_layouts_are_unique() {
    let tiles = all_tiles();
    let layout_bits = tiles
        .iter()
        .flat_map(|t| t.get_layouts())
        .map(|l| l.mask())
        .collect::<Vec<_>>();
    println!("{:?}", layout_bits);
    let layout_bits_dedup = layout_bits.iter().copied().collect::<HashSet<_>>();
    println!("{:?}", layout_bits_dedup);
    assert_eq!(layout_bits.len(), layout_bits_dedup.len());
}

#[test]
fn catalog_has_every_tile_with_uniform_sizes() {
    let tiles = all_tiles();
    assert_eq!(tiles.len(), TILE_COUNT);
    let sizes: Vec<u32> = tiles.iter().map(|t| t.get_size()).collect();
    assert_eq!(sizes, vec![4, 2, 3, 4, 3, 4, 4, 5, 4, 5, 5, 5]);
    let counts: Vec<usize> = tiles.iter().map(|t| t.get_layouts().len()).collect();
    assert_eq!(counts, vec![1, 2, 2, 2, 4, 4, 4, 4, 8, 8, 8, 8]);
    for tile in &tiles {
        let size = tile.get_size();
        for layout in tile.get_layouts() {
            let mut n = 0;
            for y in 0..MAX_SIZE {
                for x in 0..MAX_SIZE {
                    if layout.is_present_at(x, y) {
                        n += 1;
                    }
                }
            }
            assert_eq!(n, size);
        }
    }
}

#[test]
fn catalog_tile_matches_catalog() {
    let tiles = all_tiles();
    for (i, tile) in tiles.iter().enumerate() {
        let copy = catalog_tile(i);
        let a: Vec<u16> = tile.get_layouts().iter().map(|l| l.mask()).collect();
        let b: Vec<u16> = copy.get_layouts().iter().map(|l| l.mask()).collect();
        assert_eq!(a, b);
    }
    let pipe: Vec<u16> = catalog_tile(5).get_layouts().iter().map(|l| l.mask()).collect();
    assert_eq!(pipe, vec![0x0072, 0x0131, 0x0027, 0x0232]);
}

#[test]
fn layout_presence_follows_the_bit_order() {
    // ·X··
    // XXX·
    let layout = TileLayout::new_for_test(0x0072);
    assert!(!layout.is_present_at(0, 0));
    assert!(layout.is_present_at(1, 0));
    assert!(layout.is_present_at(0, 1));
    assert!(layout.is_present_at(1, 1));
    assert!(layout.is_present_at(2, 1));
    assert!(!layout.is_present_at(3, 1));
    assert!(!layout.is_present_at(1, 2));
    let corner = TileLayout::new_for_test(0x8000);
    assert!(corner.is_present_at(3, 3));
    assert!(!corner.is_present_at(0, 0));
    assert_eq!(corner.mask(), 0x8000);
}

#[test]
fn test_tile_keeps_its_layouts_in_order() {
    let tile = Tile::new_for_test(vec![0x0003, 0x0011]);
    let masks: Vec<u16> = tile.get_layouts().iter().map(|l| l.mask()).collect();
    assert_eq!(masks, vec![0x0003, 0x0011]);
    assert_eq!(tile.get_size(), 2);
}
