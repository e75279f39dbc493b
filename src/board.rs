//! The board: a fixed-capacity bitset of blocked and unblocked cells.
use vstd::prelude::*;

use crate::tile::{mask_covers, TileLayout, MAX_SIZE};

verus! {

/// Board width in cells.
pub const MAX_WIDTH: u8 = 5;

/// Board height in cells.
pub const MAX_HEIGHT: u8 = 6;

/// Number of cells on the board.
pub const CELL_COUNT: u8 = MAX_WIDTH * MAX_HEIGHT;

/// Whether `(x, y)` is a cell of the board.
pub open spec fn in_bounds(x: int, y: int) -> bool {
    0 <= x < MAX_WIDTH && 0 <= y < MAX_HEIGHT
}

/// Index of the bit that stands for cell `(x, y)`.
pub open spec fn cell_index(x: int, y: int) -> int {
    x + MAX_WIDTH * y
}

/// Whether bit `i` of `v` is set.
pub open spec fn bit32(v: u32, i: int) -> bool {
    0 <= i < 32 && (v >> (i as u32)) & 1u32 == 1u32
}

/// An encoded board is valid when no bit at or beyond `CELL_COUNT` is set.
pub open spec fn valid_encoding(v: u32) -> bool {
    v >> (CELL_COUNT as u32) == 0
}

/// The cells that the encoding `v` marks unblocked: bit `x + 5·y` stands for `(x, y)`.
pub open spec fn decoded_cells(v: u32) -> Set<(int, int)> {
    Set::new(|c: (int, int)| in_bounds(c.0, c.1) && bit32(v, cell_index(c.0, c.1)))
}

/// The board cells that the layout mask `mask`, anchored at `(dx, dy)`, covers.
pub open spec fn covered(mask: u16, dx: int, dy: int) -> Set<(int, int)> {
    Set::new(|c: (int, int)| mask_covers(mask, c.0 - dx, c.1 - dy))
}

/// Those cells of `covered(layout, dx, dy)` whose grid position comes before `k`
/// in row-major order.
spec fn covered_before(mask: u16, dx: int, dy: int, k: int) -> Set<(int, int)> {
    Set::new(
        |c: (int, int)| mask_covers(mask, c.0 - dx, c.1 - dy) && (c.0 - dx) + MAX_SIZE * (c.1 - dy) < k,
    )
}

/// The unblocked cells of `v` whose index is below `n`.
spec fn decoded_before(v: u32, n: int) -> Set<(int, int)> {
    Set::new(
        |c: (int, int)|
            in_bounds(c.0, c.1) && cell_index(c.0, c.1) < n && bit32(v, cell_index(c.0, c.1)),
    )
}

pub(crate) proof fn lemma_bit_test(v: u32, i: u32)
    requires
        i < 32,
    ensures
        (v & (1u32 << i) == 0) == !((v >> i) & 1u32 == 1u32),
{
    assert((v & (1u32 << i) == 0) == !((v >> i) & 1u32 == 1u32)) by (bit_vector)
        requires
            i < 32,
    ;
}

proof fn lemma_bit_clear(v: u32, i: u32, j: u32)
    requires
        i < 32,
        j < 32,
    ensures
        (((v & !(1u32 << i)) >> j) & 1u32 == 1u32) == (j != i && (v >> j) & 1u32 == 1u32),
        v >> 30u32 == 0 ==> (v & !(1u32 << i)) >> 30u32 == 0,
        !((v >> i) & 1u32 == 1u32) ==> v & !(1u32 << i) == v,
{
    assert(!((v >> i) & 1u32 == 1u32) ==> v & !(1u32 << i) == v) by (bit_vector)
        requires
            i < 32,
    ;
    assert((((v & !(1u32 << i)) >> j) & 1u32 == 1u32) == (j != i && (v >> j) & 1u32 == 1u32))
        by (bit_vector)
        requires
            i < 32,
            j < 32,
    ;
    assert(v >> 30u32 == 0 ==> (v & !(1u32 << i)) >> 30u32 == 0) by (bit_vector);
}

proof fn lemma_bit_set(v: u32, i: u32, j: u32)
    requires
        i < 32,
        j < 32,
    ensures
        (((v | (1u32 << i)) >> j) & 1u32 == 1u32) == (j == i || (v >> j) & 1u32 == 1u32),
        v >> 30u32 == 0 && i < 30 ==> (v | (1u32 << i)) >> 30u32 == 0,
        (v >> i) & 1u32 == 1u32 ==> v | (1u32 << i) == v,
{
    assert((v >> i) & 1u32 == 1u32 ==> v | (1u32 << i) == v) by (bit_vector)
        requires
            i < 32,
    ;
    assert((((v | (1u32 << i)) >> j) & 1u32 == 1u32) == (j == i || (v >> j) & 1u32 == 1u32))
        by (bit_vector)
        requires
            i < 32,
            j < 32,
    ;
    assert(v >> 30u32 == 0 && i < 30 ==> (v | (1u32 << i)) >> 30u32 == 0) by (bit_vector);
}

proof fn lemma_zero_bits(j: u32)
    requires
        j < 32,
    ensures
        !((0u32 >> j) & 1u32 == 1u32),
{
    assert(!((0u32 >> j) & 1u32 == 1u32)) by (bit_vector);
}

/// The unblocked cells after unblocking each cell of `cells` in turn,
/// starting from `free`.
pub open spec fn unblock_all(free: Set<(int, int)>, cells: Seq<(int, int)>) -> Set<(int, int)>
    decreases cells.len(),
{
    if cells.len() == 0 {
        free
    } else {
        unblock_all(free, cells.drop_last()).insert(cells.last())
    }
}

/// Starting from a board with every cell blocked, unblocking `k` distinct
/// cells leaves exactly `k` cells unblocked.
pub proof fn lemma_unblocked_count(cells: Seq<(int, int)>)
    requires
        cells.no_duplicates(),
    ensures
        unblock_all(Set::empty(), cells).finite(),
        unblock_all(Set::empty(), cells).len() == cells.len(),
    decreases cells.len(),
{
    if cells.len() > 0 {
        let prefix = cells.drop_last();
        assert(prefix.no_duplicates()) by {
            assert forall|i: int, j: int|
                0 <= i < prefix.len() && 0 <= j < prefix.len() && i != j implies prefix[i]
                != prefix[j] by {
                assert(prefix[i] == cells[i] && prefix[j] == cells[j]);
            }
        }
        lemma_unblocked_count(prefix);
        lemma_unblock_all_contains(prefix);
        assert(!unblock_all(Set::empty(), prefix).contains(cells.last())) by {
            if unblock_all(Set::empty(), prefix).contains(cells.last()) {
                let i = choose|i: int| 0 <= i < prefix.len() && prefix[i] == cells.last();
                assert(cells[i] == cells[cells.len() - 1]);
            }
        }
    }
}

proof fn lemma_unblock_all_contains(cells: Seq<(int, int)>)
    ensures
        forall|c: (int, int)|
            #[trigger] unblock_all(Set::empty(), cells).contains(c) ==> exists|i: int|
                0 <= i < cells.len() && cells[i] == c,
    decreases cells.len(),
{
    if cells.len() > 0 {
        let prefix = cells.drop_last();
        lemma_unblock_all_contains(prefix);
        assert forall|c: (int, int)| #[trigger]
            unblock_all(Set::empty(), cells).contains(c) implies exists|i: int|
                0 <= i < cells.len() && cells[i] == c by {
            if c == cells.last() {
                assert(cells[cells.len() - 1] == c);
            } else {
                assert(unblock_all(Set::empty(), cells) == unblock_all(Set::empty(), prefix).insert(
                    cells.last(),
                ));
                assert(unblock_all(Set::empty(), prefix).contains(c));
                let i = choose|i: int| 0 <= i < prefix.len() && prefix[i] == c;
                assert(cells[i] == c);
            }
        }
    }
}

/// Every unblocked cell of a board lies on the board.
pub proof fn lemma_view_in_bounds(b: Board)
    ensures
        forall|c: (int, int)| #[trigger] b@.contains(c) ==> in_bounds(c.0, c.1),
{
}

/// Which cells of the board are unblocked (bit set) or blocked (bit clear).
#[derive(Clone, Copy, Debug, PartialEq, Eq, Structural)]
pub struct Board {
    bit_data: u32,
}

impl View for Board {
    type V = Set<(int, int)>;

    /// The unblocked cells.
    closed spec fn view(&self) -> Set<(int, int)> {
        decoded_cells(self.bit_data)
    }
}

impl Board {
    /// Bits beyond the board's cells are always clear.
    #[verifier::type_invariant]
    spec fn inv(self) -> bool {
        valid_encoding(self.bit_data)
    }

    pub fn all_blocked() -> (r: Board)
        ensures
            r@ == Set::<(int, int)>::empty(),
    {
        assert(0u32 >> 30u32 == 0) by (bit_vector);
        let r = Board { bit_data: 0 };
        assert forall|c: (int, int)| !r@.contains(c) by {
            if in_bounds(c.0, c.1) {
                lemma_zero_bits(cell_index(c.0, c.1) as u32);
            }
        }
        assert(r@ =~= Set::<(int, int)>::empty());
        r
    }

    pub fn from_encoded(encoded: u32) -> (r: Board)
        requires
            valid_encoding(encoded),
        ensures
            r@ == decoded_cells(encoded),
    {
        Board { bit_data: encoded }
    }

    /// The board's encoding: bit `x + 5·y` set for each unblocked cell `(x, y)`.
    pub fn encoded(&self) -> (r: u32)
        ensures
            valid_encoding(r),
            decoded_cells(r) == self@,
    {
        proof {
            use_type_invariant(self);
        }
        self.bit_data
    }

    fn index_mask(x: u8, y: u8) -> (r: u32)
        requires
            in_bounds(x as int, y as int),
        ensures
            r == 1u32 << (cell_index(x as int, y as int) as u32),
    {
        let index: u8 = x + MAX_WIDTH * y;
        1u32 << index
    }

    pub fn index_mask_for_test(x: u8, y: u8) -> (r: u32)
        requires
            in_bounds(x as int, y as int),
        ensures
            r == 1u32 << (cell_index(x as int, y as int) as u32),
    {
        Self::index_mask(x, y)
    }

    /// The number of unblocked cells.
    pub fn count_unblocked(&self) -> (r: u32)
        ensures
            self@.finite(),
            r == self@.len(),
    {
        let mut count: u32 = 0;
        let mut i: u32 = 0;
        let mut x: u8 = 0;
        let mut y: u8 = 0;
        assert(decoded_before(self.bit_data, 0) =~= Set::<(int, int)>::empty());
        while i < 30
            invariant
                i <= 30,
                x < MAX_WIDTH,
                i == cell_index(x as int, y as int),
                decoded_before(self.bit_data, i as int).finite(),
                count == decoded_before(self.bit_data, i as int).len(),
                count <= i,
            decreases 30 - i,
        {
            let ghost before = decoded_before(self.bit_data, i as int);
            proof {
                lemma_bit_test(self.bit_data, i);
            }
            if self.bit_data & (1u32 << i) != 0 {
                assert(decoded_before(self.bit_data, i + 1) =~= before.insert((x as int, y as int)));
                count = count + 1;
            } else {
                assert(decoded_before(self.bit_data, i + 1) =~= before);
            }
            i = i + 1;
            if x + 1 == MAX_WIDTH {
                x = 0;
                y = y + 1;
            } else {
                x = x + 1;
            }
        }
        assert(decoded_before(self.bit_data, 30) =~= self@);
        count
    }

    pub fn is_blocked_at(&self, x: u8, y: u8) -> (r: bool)
        requires
            in_bounds(x as int, y as int),
        ensures
            r == !self@.contains((x as int, y as int)),
    {
        proof {
            lemma_bit_test(self.bit_data, (x + MAX_WIDTH * y) as u32);
        }
        0 == (self.bit_data & Self::index_mask(x, y))
    }

    pub fn set_blocked(&mut self, x: u8, y: u8)
        requires
            in_bounds(x as int, y as int),
        ensures
            final(self)@ == old(self)@.remove((x as int, y as int)),
            !old(self)@.contains((x as int, y as int)) ==> *final(self) == *old(self),
    {
        let ghost v = self.bit_data;
        let ghost i = cell_index(x as int, y as int) as u32;
        proof {
            use_type_invariant(&*self);
            lemma_bit_clear(v, i, 0);
            lemma_bit_test(v, i);
        }
        self.bit_data = self.bit_data & !Self::index_mask(x, y);
        assert forall|c: (int, int)| #[trigger] self@.contains(c) == old(self)@.remove((x as int, y as int)).contains(c) by {
            if in_bounds(c.0, c.1) {
                lemma_bit_clear(v, i, cell_index(c.0, c.1) as u32);
            }
        }
        assert(self@ =~= old(self)@.remove((x as int, y as int)));
    }

    pub fn set_unblocked(&mut self, x: u8, y: u8)
        requires
            in_bounds(x as int, y as int),
        ensures
            final(self)@ == old(self)@.insert((x as int, y as int)),
            old(self)@.contains((x as int, y as int)) ==> *final(self) == *old(self),
    {
        let ghost v = self.bit_data;
        let ghost i = cell_index(x as int, y as int) as u32;
        proof {
            use_type_invariant(&*self);
            lemma_bit_set(v, i, 0);
            lemma_bit_test(v, i);
        }
        self.bit_data = self.bit_data | Self::index_mask(x, y);
        assert forall|c: (int, int)| #[trigger] self@.contains(c) == old(self)@.insert((x as int, y as int)).contains(c) by {
            if in_bounds(c.0, c.1) {
                lemma_bit_set(v, i, cell_index(c.0, c.1) as u32);
            }
        }
        assert(self@ =~= old(self)@.insert((x as int, y as int)));
    }

    /// Places `tile_layout` anchored at `(dx, dy)`: the board with the covered
    /// cells blocked, or `None` when a covered cell lies off the board or is
    /// already blocked. `self` is never changed.
    pub fn with_blocked_tile(&self, tile_layout: &TileLayout, dx: u8, dy: u8) -> (r: Option<Board>)
        requires
            in_bounds(dx as int, dy as int),
        ensures
            r.is_some() == covered(tile_layout@, dx as int, dy as int).subset_of(self@),
            r matches Some(b) ==> b@ == self@.difference(
                covered(tile_layout@, dx as int, dy as int),
            ),
    {
        let ghost cov = covered(tile_layout@, dx as int, dy as int);
        let mut result = *self;
        let mut k: u8 = 0;
        let mut x: u8 = 0;
        let mut y: u8 = 0;
        assert(covered_before(tile_layout@, dx as int, dy as int, 0) =~= Set::<(int, int)>::empty());
        while k < 16
            invariant
                in_bounds(dx as int, dy as int),
                k <= 16,
                x < MAX_SIZE,
                k == x + MAX_SIZE * y,
                covered_before(tile_layout@, dx as int, dy as int, k as int).subset_of(self@),
                result@ == self@.difference(covered_before(tile_layout@, dx as int, dy as int, k as int)),
            decreases 16 - k,
        {
            let ghost before = covered_before(tile_layout@, dx as int, dy as int, k as int);
            if tile_layout.is_present_at(x, y) {
                let abs_x: u8 = dx + x;
                let abs_y: u8 = dy + y;
                if abs_x >= MAX_WIDTH || abs_y >= MAX_HEIGHT || self.is_blocked_at(abs_x, abs_y) {
                    assert(covered(tile_layout@, dx as int, dy as int).contains(
                        (abs_x as int, abs_y as int),
                    ));
                    assert(!self@.contains((abs_x as int, abs_y as int)));
                    return None;
                }
                result.set_blocked(abs_x, abs_y);
                assert(covered_before(tile_layout@, dx as int, dy as int, k + 1) =~= before.insert(
                    (abs_x as int, abs_y as int),
                ));
            } else {
                assert(covered_before(tile_layout@, dx as int, dy as int, k + 1) =~= before);
            }
            assert(result@ =~= self@.difference(covered_before(tile_layout@, dx as int, dy as int, k + 1)));
            k = k + 1;
            if x + 1 == MAX_SIZE {
                x = 0;
                y = y + 1;
            } else {
                x = x + 1;
            }
        }
        assert(covered_before(tile_layout@, dx as int, dy as int, 16) =~= cov);
        Some(result)
    }
}

} // verus!
