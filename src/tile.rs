//! Tile geometry: 4×4 layout masks and the fixed catalog of tiles.
use vstd::prelude::*;

verus! {

/// Side length of the square grid that holds one layout.
pub const MAX_SIZE: u8 = 4;

/// Whether bit `i` of `bits` is set.
pub open spec fn mask_bit(bits: u16, i: int) -> bool {
    0 <= i < 16 && (bits >> (i as u16)) & 1u16 == 1u16
}

/// Whether cell `(x, y)` of the 4×4 grid is present in `bits`: bit `x + 4·y`.
pub open spec fn mask_covers(bits: u16, x: int, y: int) -> bool {
    0 <= x < MAX_SIZE && 0 <= y < MAX_SIZE && mask_bit(bits, x + MAX_SIZE * y)
}

/// Number of set bits among the lowest `n` bits of `bits`.
pub open spec fn popcount16(bits: u16, n: nat) -> nat
    decreases n,
{
    if n == 0 {
        0
    } else {
        popcount16(bits, (n - 1) as nat) + if mask_bit(bits, n - 1) { 1nat } else { 0nat }
    }
}

proof fn lemma_mask_bit(bits: u16, i: u16)
    requires
        i < 16,
    ensures
        (bits & (1u16 << i) != 0) == ((bits >> i) & 1u16 == 1u16),
{
    assert((bits & (1u16 << i) != 0) == ((bits >> i) & 1u16 == 1u16)) by (bit_vector)
        requires
            i < 16,
    ;
}

/// One orientation of a tile: a presence mask over a 4×4 grid, anchored at
/// its top-left corner.
#[derive(Clone, Copy, Debug, PartialEq, Eq, Structural)]
pub struct TileLayout {
    bit_data: u16,
}

impl View for TileLayout {
    type V = u16;

    closed spec fn view(&self) -> u16 {
        self.bit_data
    }
}

impl TileLayout {
    /// Whether the layout covers cell `(x, y)` of its grid.
    pub open spec fn covers(self, x: int, y: int) -> bool {
        mask_covers(self@, x, y)
    }

    /// Number of cells the layout covers.
    pub open spec fn cell_count(self) -> nat {
        popcount16(self@, 16)
    }

    pub fn new_for_test(bit_data: u16) -> (r: TileLayout)
        ensures
            r@ == bit_data,
    {
        TileLayout { bit_data }
    }

    /// The layout's presence mask.
    pub fn mask(&self) -> (r: u16)
        ensures
            r == self@,
    {
        self.bit_data
    }

    pub fn is_present_at(&self, x: u8, y: u8) -> (r: bool)
        requires
            x < MAX_SIZE,
            y < MAX_SIZE,
        ensures
            r == self.covers(x as int, y as int),
    {
        let offset: u8 = x + y * MAX_SIZE;
        proof {
            lemma_mask_bit(self.bit_data, offset as u16);
        }
        0 != (self.bit_data & (1u16 << offset))
    }

    fn size(&self) -> (r: u32)
        ensures
            r == self.cell_count(),
    {
        let mut count: u32 = 0;
        let mut i: u16 = 0;
        while i < 16
            invariant
                i <= 16,
                count == popcount16(self.bit_data, i as nat),
                count <= i,
            decreases 16 - i,
        {
            proof {
                lemma_mask_bit(self.bit_data, i);
            }
            if self.bit_data & (1u16 << i) != 0 {
                count = count + 1;
            }
            i = i + 1;
        }
        count
    }
}

/// A tile: the ordered list of its distinct rotation/reflection layouts.
#[derive(Clone, Debug)]
pub struct Tile {
    layouts: Vec<TileLayout>,
}

impl View for Tile {
    type V = Seq<TileLayout>;

    closed spec fn view(&self) -> Seq<TileLayout> {
        self.layouts@
    }
}

/// The masks of `layouts`, in order.
pub open spec fn masks_of(layouts: Seq<TileLayout>) -> Seq<u16> {
    layouts.map_values(|l: TileLayout| l@)
}

impl Tile {
    /// A tile has at least one layout, and few enough that a `u8` indexes them.
    pub open spec fn wf(self) -> bool {
        0 < self@.len() <= 256
    }

    /// Every layout of the tile covers the same number of cells.
    pub open spec fn uniform(self) -> bool {
        forall|i: int| 0 <= i < self@.len() ==> #[trigger] self@[i].cell_count() == self@[0].cell_count()
    }

    fn new(layouts_raw: Vec<u16>) -> (r: Tile)
        requires
            0 < layouts_raw.len() <= 256,
            forall|i: int|
                0 <= i < layouts_raw.len() ==> #[trigger] popcount16(layouts_raw[i], 16) == popcount16(
                    layouts_raw[0],
                    16,
                ),
        ensures
            r.wf(),
            r.uniform(),
            masks_of(r@) == layouts_raw@,
    {
        let r = Tile::new_for_test(layouts_raw);
        assert forall|i: int| 0 <= i < r@.len() implies #[trigger] r@[i].cell_count() == r@[0].cell_count() by {
            assert(r@[i]@ == masks_of(r@)[i]);
            assert(r@[0]@ == masks_of(r@)[0]);
        }
        r
    }

    /// Builds a tile from the given masks, as given.
    pub fn new_for_test(layouts_raw: Vec<u16>) -> (r: Tile)
        requires
            0 < layouts_raw.len() <= 256,
        ensures
            r.wf(),
            masks_of(r@) == layouts_raw@,
    {
        let mut layouts: Vec<TileLayout> = Vec::new();
        let mut i: usize = 0;
        while i < layouts_raw.len()
            invariant
                i <= layouts_raw.len(),
                masks_of(layouts@) == layouts_raw@.subrange(0, i as int),
            decreases layouts_raw.len() - i,
        {
            let layout = TileLayout { bit_data: layouts_raw[i] };
            let ghost prev = layouts@;
            layouts.push(layout);
            assert(masks_of(layouts@) =~= masks_of(prev).push(layout@));
            i = i + 1;
            assert(masks_of(layouts@) =~= layouts_raw@.subrange(0, i as int));
        }
        assert(layouts_raw@.subrange(0, i as int) =~= layouts_raw@);
        Tile { layouts }
    }

    /// Number of cells each layout covers (that of the first one).
    pub fn get_size(&self) -> (r: u32)
        requires
            self.wf(),
        ensures
            r == self@[0].cell_count(),
    {
        self.layouts[0].size()
    }

    pub fn get_layouts(&self) -> (r: &[TileLayout])
        ensures
            r@ == self@,
    {
        self.layouts.as_slice()
    }
}

/// Number of tiles in the catalog.
pub const TILE_COUNT: usize = 12;

/// The layout masks of every catalog tile, in catalog order.
///
/// Bit `x + 4·y` of a mask is cell `(x, y)`; bit 0 is the top-left corner.
pub open spec fn catalog_masks() -> Seq<Seq<u16>> {
    seq![
        seq![0x0033u16],
        seq![0x0003u16, 0x0011],
        seq![0x0007u16, 0x0111],
        seq![0x000Fu16, 0x1111],
        seq![0x0013u16, 0x0023, 0x0032, 0x0031],
        seq![0x0072u16, 0x0131, 0x0027, 0x0232],
        seq![0x0063u16, 0x0036, 0x0231, 0x0132],
        seq![0x0623u16, 0x0326, 0x0471, 0x0174],
        seq![0x0113u16, 0x0047, 0x0322, 0x0071, 0x0223, 0x0017, 0x0311, 0x0074],
        seq![0x1113u16, 0x008F, 0x3222, 0x00F1, 0x2223, 0x001F, 0x3111, 0x00F8],
        seq![0x1131u16, 0x004F, 0x2322, 0x00F2, 0x2232, 0x002F, 0x1311, 0x00F4],
        seq![0x0133u16, 0x0073, 0x0332, 0x0067, 0x0233, 0x0037, 0x0331, 0x0076],
    ]
}

/// Every mask of `s` from index `i` on has `k` bits set.
spec fn counts_from(s: Seq<u16>, k: nat, i: nat) -> bool
    decreases s.len() - i,
{
    i >= s.len() || (popcount16(s[i as int], 16) == k && counts_from(s, k, i + 1))
}

proof fn lemma_counts_from(s: Seq<u16>, k: nat, i: nat)
    requires
        counts_from(s, k, i),
    ensures
        forall|j: int| i <= j < s.len() ==> #[trigger] popcount16(s[j], 16) == k,
    decreases s.len() - i,
{
    if i < s.len() {
        lemma_counts_from(s, k, i + 1);
    }
}

/// Builds the tile whose layout masks are `masks`, each with `k` cells.
fn uniform_tile(masks: Vec<u16>, Ghost(k): Ghost<nat>) -> (r: Tile)
    requires
        0 < masks.len() <= 256,
        counts_from(masks@, k, 0),
    ensures
        r.wf(),
        r.uniform(),
        masks_of(r@) == masks@,
{
    proof {
        lemma_counts_from(masks@, k, 0);
    }
    Tile::new(masks)
}

/// A fresh copy of catalog tile `index`.
pub fn catalog_tile(index: usize) -> (r: Tile)
    requires
        index < TILE_COUNT,
    ensures
        r.wf(),
        r.uniform(),
        masks_of(r@) == catalog_masks()[index as int],
{
    proof {
        reveal_with_fuel(counts_from, 9);
    }
    if index == 0 {
        proof {
            assert(popcount16(0x0033u16, 16) == 4) by (bit_vector);
        }
        uniform_tile(vec![0x0033], Ghost(4))
    } else if index == 1 {
        proof {
            assert(popcount16(0x0003u16, 16) == 2 && popcount16(0x0011u16, 16) == 2) by (bit_vector);
        }
        uniform_tile(vec![0x0003, 0x0011], Ghost(2))
    } else if index == 2 {
        proof {
            assert(popcount16(0x0007u16, 16) == 3 && popcount16(0x0111u16, 16) == 3) by (bit_vector);
        }
        uniform_tile(vec![0x0007, 0x0111], Ghost(3))
    } else if index == 3 {
        proof {
            assert(popcount16(0x000Fu16, 16) == 4 && popcount16(0x1111u16, 16) == 4) by (bit_vector);
        }
        uniform_tile(vec![0x000F, 0x1111], Ghost(4))
    } else if index == 4 {
        proof {
            assert(popcount16(0x0013u16, 16) == 3
                && popcount16(0x0023u16, 16) == 3
                && popcount16(0x0032u16, 16) == 3
                && popcount16(0x0031u16, 16) == 3
            ) by (bit_vector);
        }
        uniform_tile(vec![0x0013, 0x0023, 0x0032, 0x0031], Ghost(3))
    } else if index == 5 {
        proof {
            assert(popcount16(0x0072u16, 16) == 4
                && popcount16(0x0131u16, 16) == 4
                && popcount16(0x0027u16, 16) == 4
                && popcount16(0x0232u16, 16) == 4
            ) by (bit_vector);
        }
        uniform_tile(vec![0x0072, 0x0131, 0x0027, 0x0232], Ghost(4))
    } else if index == 6 {
        proof {
            assert(popcount16(0x0063u16, 16) == 4
                && popcount16(0x0036u16, 16) == 4
                && popcount16(0x0231u16, 16) == 4
                && popcount16(0x0132u16, 16) == 4
            ) by (bit_vector);
        }
        uniform_tile(vec![0x0063, 0x0036, 0x0231, 0x0132], Ghost(4))
    } else if index == 7 {
        proof {
            assert(popcount16(0x0623u16, 16) == 5
                && popcount16(0x0326u16, 16) == 5
                && popcount16(0x0471u16, 16) == 5
                && popcount16(0x0174u16, 16) == 5
            ) by (bit_vector);
        }
        uniform_tile(vec![0x0623, 0x0326, 0x0471, 0x0174], Ghost(5))
    } else if index == 8 {
        proof {
            assert(popcount16(0x0113u16, 16) == 4
                && popcount16(0x0047u16, 16) == 4
                && popcount16(0x0322u16, 16) == 4
                && popcount16(0x0071u16, 16) == 4
                && popcount16(0x0223u16, 16) == 4
                && popcount16(0x0017u16, 16) == 4
                && popcount16(0x0311u16, 16) == 4
                && popcount16(0x0074u16, 16) == 4
            ) by (bit_vector);
        }
        uniform_tile(vec![0x0113, 0x0047, 0x0322, 0x0071, 0x0223, 0x0017, 0x0311, 0x0074], Ghost(4))
    } else if index == 9 {
        proof {
            assert(popcount16(0x1113u16, 16) == 5
                && popcount16(0x008Fu16, 16) == 5
                && popcount16(0x3222u16, 16) == 5
                && popcount16(0x00F1u16, 16) == 5
                && popcount16(0x2223u16, 16) == 5
                && popcount16(0x001Fu16, 16) == 5
                && popcount16(0x3111u16, 16) == 5
                && popcount16(0x00F8u16, 16) == 5
            ) by (bit_vector);
        }
        uniform_tile(vec![0x1113, 0x008F, 0x3222, 0x00F1, 0x2223, 0x001F, 0x3111, 0x00F8], Ghost(5))
    } else if index == 10 {
        proof {
            assert(popcount16(0x1131u16, 16) == 5
                && popcount16(0x004Fu16, 16) == 5
                && popcount16(0x2322u16, 16) == 5
                && popcount16(0x00F2u16, 16) == 5
                && popcount16(0x2232u16, 16) == 5
                && popcount16(0x002Fu16, 16) == 5
                && popcount16(0x1311u16, 16) == 5
                && popcount16(0x00F4u16, 16) == 5
            ) by (bit_vector);
        }
        uniform_tile(vec![0x1131, 0x004F, 0x2322, 0x00F2, 0x2232, 0x002F, 0x1311, 0x00F4], Ghost(5))
    } else {
        proof {
            assert(popcount16(0x0133u16, 16) == 5
                && popcount16(0x0073u16, 16) == 5
                && popcount16(0x0332u16, 16) == 5
                && popcount16(0x0067u16, 16) == 5
                && popcount16(0x0233u16, 16) == 5
                && popcount16(0x0037u16, 16) == 5
                && popcount16(0x0331u16, 16) == 5
                && popcount16(0x0076u16, 16) == 5
            ) by (bit_vector);
        }
        uniform_tile(vec![0x0133, 0x0073, 0x0332, 0x0067, 0x0233, 0x0037, 0x0331, 0x0076], Ghost(5))
    }
}

/// The whole catalog, in catalog order.
pub fn all_tiles() -> (r: Vec<Tile>)
    ensures
        r.len() == TILE_COUNT,
        forall|t: int|
            0 <= t < TILE_COUNT ==> #[trigger] r@[t].wf() && r@[t].uniform() && masks_of(r@[t]@)
                == catalog_masks()[t],
{
    let mut r: Vec<Tile> = Vec::new();
    let mut i: usize = 0;
    while i < TILE_COUNT
        invariant
            i <= TILE_COUNT,
            r.len() == i,
            forall|t: int|
                0 <= t < i ==> #[trigger] r@[t].wf() && r@[t].uniform() && masks_of(r@[t]@)
                    == catalog_masks()[t],
        decreases TILE_COUNT - i,
    {
        let ghost prev = r@;
        r.push(catalog_tile(i));
        assert forall|t: int| 0 <= t < i implies r@[t] == prev[t] by {}
        i = i + 1;
    }
    r
}

} // verus!
