//! Exact-cover search for placing polyomino tiles on a small board, run in
//! bounded slices of steps.
use vstd::prelude::*;

pub mod board;
pub mod search;
pub mod tile;

use crate::board::{
    bit32, cell_index, covered, decoded_cells, in_bounds, lemma_bit_test, valid_encoding, Board,
    MAX_HEIGHT, MAX_WIDTH,
};
use crate::search::{initial_search, on_board, run, tile_masks, valid_op, Operation, State};
use crate::tile::{catalog_masks, catalog_tile, masks_of, Tile, MAX_SIZE, TILE_COUNT};

verus! {

/// Version of the interface between a host and this engine.
pub const VERSION: usize = 42;

/// What `check_config` returns when the host's constants all agree.
pub const CONFIG_OK: u32 = 134250805;

/// Length of the per-cell owner array: one entry per board cell.
pub const CELL_TO_TILE_LENGTH: usize = 30;

/// Owner of a cell that no placed tile covers.
pub const UNPAINTED: u8 = 255;

/// Compares a host's constants with this engine's: 1 for a different
/// version, 2 for the board width, 3 for the board height, 4 for the tile
/// grid size, 5 for the catalog size (the first that differs), and
/// `CONFIG_OK` when all agree.
pub fn check_config(
    version: usize,
    max_board_w: u8,
    max_board_h: u8,
    max_tile_size: u8,
    total_tiles: usize,
) -> (r: u32)
    ensures
        r == if version != VERSION {
            1
        } else if max_board_w != MAX_WIDTH {
            2
        } else if max_board_h != MAX_HEIGHT {
            3
        } else if max_tile_size != MAX_SIZE {
            4
        } else if total_tiles != TILE_COUNT {
            5
        } else {
            CONFIG_OK
        },
{
    if version != VERSION {
        return 1;
    }
    if max_board_w != MAX_WIDTH {
        return 2;
    }
    if max_board_h != MAX_HEIGHT {
        return 3;
    }
    if max_tile_size != MAX_SIZE {
        return 4;
    }
    if total_tiles != TILE_COUNT {
        return 5;
    }
    CONFIG_OK
}

/// Whether the selection mask `bits` selects catalog tile `k`: bit
/// `TILE_COUNT - 1 - k`, so the first catalog tile is the highest bit.
pub open spec fn tile_selected(bits: u32, k: int) -> bool {
    0 <= k < TILE_COUNT && bit32(bits, TILE_COUNT - 1 - k)
}

/// The catalog indices below `n` that `bits` selects, ascending.
pub open spec fn selected_upto(bits: u32, n: int) -> Seq<usize>
    decreases n,
{
    if n <= 0 {
        seq![]
    } else if tile_selected(bits, n - 1) {
        selected_upto(bits, n - 1).push((n - 1) as usize)
    } else {
        selected_upto(bits, n - 1)
    }
}

/// The catalog indices that `bits` selects, ascending.
pub open spec fn decoded_selection(bits: u32) -> Seq<usize> {
    selected_upto(bits, TILE_COUNT as int)
}

/// The bit positions of a selection mask that the catalog indices `indices`
/// stand for.
pub open spec fn selection_bits(indices: Seq<usize>) -> Set<int> {
    indices.to_set().map(|k: usize| TILE_COUNT - 1 - k)
}

proof fn lemma_selected_upto(bits: u32, n: int)
    requires
        n <= TILE_COUNT,
    ensures
        forall|k: int|
            #![trigger selected_upto(bits, n).contains(k as usize)]
            0 <= k < TILE_COUNT ==> (selected_upto(bits, n).contains(k as usize) <==> (k < n
                && tile_selected(bits, k))),
        forall|j: int|
            0 <= j < selected_upto(bits, n).len() ==> (#[trigger] selected_upto(bits, n)[j] as int)
                < n,
        n >= 0 ==> selected_upto(bits, n).len() <= n,
    decreases n,
{
    if n > 0 {
        lemma_selected_upto(bits, n - 1);
        let a = selected_upto(bits, n - 1);
        if tile_selected(bits, n - 1) {
            assert(a.push((n - 1) as usize)[a.len() as int] == (n - 1) as usize);
            assert forall|k: int| 0 <= k < TILE_COUNT implies (selected_upto(bits, n).contains(
                k as usize,
            ) <==> (k < n && tile_selected(bits, k))) by {
                if a.contains(k as usize) {
                    let j = choose|j: int| 0 <= j < a.len() && a[j] == k as usize;
                    assert(a.push((n - 1) as usize)[j] == k as usize);
                }
                let b = a.push((n - 1) as usize);
                if b.contains(k as usize) && k != n - 1 {
                    let j = choose|j: int| 0 <= j < b.len() && #[trigger] b[j] == k as usize;
                    assert(a[j] == k as usize);
                }
            }
        }
    }
}

/// Decoding a selection mask and re-deriving the mask bits from the decoded
/// indices, taken in any order, gives back exactly the catalog bits of the
/// mask it came from.
pub proof fn lemma_selection_round_trip(bits: u32, indices: Seq<usize>)
    requires
        indices.to_set() == decoded_selection(bits).to_set(),
    ensures
        selection_bits(indices) == Set::new(|i: int| 0 <= i < TILE_COUNT && bit32(bits, i)),
{
    lemma_selected_upto(bits, TILE_COUNT as int);
    let d = decoded_selection(bits);
    let want = Set::new(|i: int| 0 <= i < TILE_COUNT && bit32(bits, i));
    assert forall|i: int| selection_bits(indices).contains(i) <==> want.contains(i) by {
        if want.contains(i) {
            let k = TILE_COUNT - 1 - i;
            assert(d.contains(k as usize));
            assert(indices.to_set().contains(k as usize));
            assert(TILE_COUNT - 1 - (k as usize) == i);
        }
        if selection_bits(indices).contains(i) {
            let k = choose|k: usize| indices.to_set().contains(k) && TILE_COUNT - 1 - k == i;
            assert(d.to_set().contains(k));
            let j = choose|j: int| 0 <= j < d.len() && d[j] == k;
            assert((d[j] as int) < TILE_COUNT);
            assert(d.contains((k as int) as usize));
        }
    }
    assert(selection_bits(indices) =~= want);
}

/// The catalog indices that `tiles_encoded` selects, ascending.
pub fn decode_tile_indices(tiles_encoded: u32) -> (r: Vec<usize>)
    ensures
        r@ == decoded_selection(tiles_encoded),
{
    let mut tile_indices: Vec<usize> = Vec::new();
    let mut tile_index: usize = 0;
    while tile_index < TILE_COUNT
        invariant
            tile_index <= TILE_COUNT,
            tile_indices@ == selected_upto(tiles_encoded, tile_index as int),
        decreases TILE_COUNT - tile_index,
    {
        let shift = (TILE_COUNT - 1 - tile_index) as u32;
        proof {
            lemma_bit_test(tiles_encoded, shift);
        }
        if 0 != tiles_encoded & (1u32 << shift) {
            tile_indices.push(tile_index);
        }
        tile_index = tile_index + 1;
    }
    tile_indices
}

/// The result payload of a run: steps that found no solution, whether a
/// solution was found, whether the search has nothing left to expand, and
/// for each cell the catalog index of the tile that covers it in the
/// solution (or `UNPAINTED`).
#[derive(Debug, PartialEq)]
pub struct Result {
    pub steps_taken: usize,
    pub has_solution: bool,
    pub has_finished: bool,
    pub cell_to_tile: [u8; CELL_TO_TILE_LENGTH],
}

/// The owner of cell `(x, y)` after painting the first `k` operations of
/// `ops`: the catalog index `lookup[t]` of the last one (of tile `t`) that
/// covers it, or `UNPAINTED`. `tiles` holds the layout masks of each tile.
pub open spec fn painted_at(
    ops: Seq<Operation>,
    lookup: Seq<usize>,
    tiles: Seq<Seq<u16>>,
    k: int,
    x: int,
    y: int,
) -> u8
    decreases k,
{
    if k <= 0 {
        UNPAINTED
    } else {
        let op = ops[k - 1];
        let t = op.indexed_tile_layout.tile_index as int;
        let l = op.indexed_tile_layout.layout_index as int;
        if covered(tiles[t][l], op.dx as int, op.dy as int).contains((x, y)) {
            lookup[t] as u8
        } else {
            painted_at(ops, lookup, tiles, k - 1, x, y)
        }
    }
}

/// The layout masks of the catalog tiles that `lookup` names, in order.
pub open spec fn selected_masks(lookup: Seq<usize>) -> Seq<Seq<u16>> {
    lookup.map_values(|k: usize| catalog_masks()[k as int])
}

/// For each cell, the catalog index of the tile that covers it when the
/// operations `steps` are painted in order, or `UNPAINTED`. Tile `t` of the
/// operations is `tiles[t]`, which is catalog tile `tile_lookup[t]`.
fn paint_cells(steps: &Vec<Operation>, tile_lookup: &[usize], tiles: &[Tile]) -> (r: [u8; CELL_TO_TILE_LENGTH])
    requires
        tile_lookup.len() == tiles.len(),
        forall|j: int| 0 <= j < steps.len() ==> valid_op(tile_masks(tiles@), #[trigger] steps@[j]),
    ensures
        forall|x: int, y: int|
            in_bounds(x, y) ==> #[trigger] r[cell_index(x, y)] == painted_at(
                steps@,
                tile_lookup@,
                tile_masks(tiles@),
                steps.len() as int,
                x,
                y,
            ),
{
    let ghost masks = tile_masks(tiles@);
    let mut cells: [u8; CELL_TO_TILE_LENGTH] = [UNPAINTED; CELL_TO_TILE_LENGTH];
    let mut i: usize = 0;
    while i < steps.len()
        invariant
            masks == tile_masks(tiles@),
            tile_lookup.len() == tiles.len(),
            forall|j: int| 0 <= j < steps.len() ==> valid_op(masks, #[trigger] steps@[j]),
            i <= steps.len(),
            forall|x: int, y: int|
                in_bounds(x, y) ==> #[trigger] cells[cell_index(x, y)] == painted_at(
                    steps@,
                    tile_lookup@,
                    masks,
                    i as int,
                    x,
                    y,
                ),
        decreases steps.len() - i,
    {
        let operation = steps[i];
        assert(valid_op(masks, steps@[i as int]));
        let local_tile_index = operation.indexed_tile_layout.tile_index as usize;
        let layout_index = operation.indexed_tile_layout.layout_index as usize;
        let global_tile_index = tile_lookup[local_tile_index];
        let layouts = tiles[local_tile_index].get_layouts();
        let layout = layouts[layout_index];
        let ghost mask = masks[local_tile_index as int][layout_index as int];
        assert(mask == layout@);
        let dx = operation.dx;
        let dy = operation.dy;
        let ghost prev = cells;
        let mut y: u8 = 0;
        while y < MAX_SIZE
            invariant
                y <= MAX_SIZE,
                in_bounds(dx as int, dy as int),
                on_board(covered(mask, dx as int, dy as int)),
                mask == layout@,
                forall|cx: int, cy: int|
                    in_bounds(cx, cy) ==> #[trigger] cells[cell_index(cx, cy)] == if covered(
                        mask,
                        dx as int,
                        dy as int,
                    ).contains((cx, cy)) && cy - dy < y {
                        global_tile_index as u8
                    } else {
                        prev[cell_index(cx, cy)]
                    },
            decreases MAX_SIZE - y,
        {
            let mut x: u8 = 0;
            while x < MAX_SIZE
                invariant
                    x <= MAX_SIZE,
                    y < MAX_SIZE,
                    in_bounds(dx as int, dy as int),
                    on_board(covered(mask, dx as int, dy as int)),
                    mask == layout@,
                    forall|cx: int, cy: int|
                        in_bounds(cx, cy) ==> #[trigger] cells[cell_index(cx, cy)] == if covered(
                            mask,
                            dx as int,
                            dy as int,
                        ).contains((cx, cy)) && (cy - dy < y || (cy - dy == y && cx - dx < x)) {
                            global_tile_index as u8
                        } else {
                            prev[cell_index(cx, cy)]
                        },
                decreases MAX_SIZE - x,
            {
                if layout.is_present_at(x, y) {
                    let abs_x: u8 = x + dx;
                    let abs_y: u8 = y + dy;
                    assert(covered(mask, dx as int, dy as int).contains((abs_x as int, abs_y as int)));
                    let cell: usize = (abs_x + MAX_WIDTH * abs_y) as usize;
                    cells[cell] = global_tile_index as u8;
                }
                x = x + 1;
            }
            y = y + 1;
        }
        i = i + 1;
    }
    cells
}

/// Decodes the tile selection and the board, runs at most `max_steps` steps
/// of the search over the selected catalog tiles, and reports the outcome.
pub fn compute_result(tiles_encoded: u32, board_encoded: u32, max_steps: usize) -> (r: Result)
    requires
        valid_encoding(board_encoded),
    ensures
        ({
            let lookup = decoded_selection(tiles_encoded);
            let tiles = selected_masks(lookup);
            let (s, k, solution) = run(
                initial_search(decoded_cells(board_encoded), tiles),
                max_steps as nat,
            );
            &&& r.steps_taken == k
            &&& r.has_solution == solution.is_some()
            &&& r.has_finished == (s.open.len() == 0)
            &&& solution matches Some(ops) ==> forall|x: int, y: int|
                in_bounds(x, y) ==> #[trigger] r.cell_to_tile[cell_index(x, y)] == painted_at(
                    ops,
                    lookup,
                    tiles,
                    ops.len() as int,
                    x,
                    y,
                )
            &&& solution is None ==> forall|i: int|
                0 <= i < CELL_TO_TILE_LENGTH ==> #[trigger] r.cell_to_tile[i] == UNPAINTED
        }),
{
    let tile_indices = decode_tile_indices(tiles_encoded);
    proof {
        lemma_selected_upto(tiles_encoded, TILE_COUNT as int);
    }
    let mut tiles: Vec<Tile> = Vec::new();
    let mut i: usize = 0;
    while i < tile_indices.len()
        invariant
            tile_indices@ == decoded_selection(tiles_encoded),
            forall|j: int|
                0 <= j < tile_indices.len() ==> (#[trigger] tile_indices@[j] as int) < TILE_COUNT,
            tile_indices.len() <= TILE_COUNT,
            i <= tile_indices.len(),
            tiles.len() == i,
            forall|j: int| 0 <= j < i ==> #[trigger] tiles@[j].wf(),
            forall|j: int|
                0 <= j < i ==> #[trigger] masks_of(tiles@[j]@) == catalog_masks()[tile_indices@[j] as int],
        decreases tile_indices.len() - i,
    {
        let ghost prev = tiles@;
        tiles.push(catalog_tile(tile_indices[i]));
        assert forall|j: int| 0 <= j < i implies tiles@[j] == prev[j] by {}
        i = i + 1;
    }
    assert(tile_masks(tiles@) =~= selected_masks(tile_indices@));
    let board = Board::from_encoded(board_encoded);
    let mut search_state = State::new(board, tiles.as_slice());
    let (steps_taken, raw_result) = search_state.step_at_most(max_steps);
    let (has_solution, cell_to_tile) = match raw_result {
        None => (false, [UNPAINTED; CELL_TO_TILE_LENGTH]),
        Some(steps) => (true, paint_cells(&steps, tile_indices.as_slice(), tiles.as_slice())),
    };
    Result { steps_taken, has_solution, has_finished: !search_state.can_step(), cell_to_tile }
}

} // verus!
