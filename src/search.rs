//! Resumable depth-first search for an exact cover of the board by tiles.
use vstd::prelude::*;

use crate::board::{covered, in_bounds, Board, MAX_HEIGHT, MAX_WIDTH};
use crate::tile::{masks_of, Tile};

verus! {

/// One orientation choice: a tile of the search's tile list and one of its layouts.
#[derive(Clone, Copy, Debug, PartialEq, Eq, Structural)]
pub struct IndexedTileLayout {
    pub tile_index: u8,
    pub layout_index: u8,
}

/// A committed placement: a tile layout anchored at `(dx, dy)`.
#[derive(Clone, Copy, Debug, PartialEq, Eq, Structural)]
pub struct Operation {
    pub indexed_tile_layout: IndexedTileLayout,
    pub dx: u8,
    pub dy: u8,
}

/// The operation that places layout `l` of tile `t` at `(dx, dy)`.
pub open spec fn operation_of(t: u8, l: u8, dx: u8, dy: u8) -> Operation {
    Operation { indexed_tile_layout: IndexedTileLayout { tile_index: t, layout_index: l }, dx, dy }
}

impl Operation {
    pub fn from(tile_index: u8, layout_index: u8, dx: u8, dy: u8) -> (r: Operation)
        ensures
            r == operation_of(tile_index, layout_index, dx, dy),
    {
        Operation { indexed_tile_layout: IndexedTileLayout { tile_index, layout_index }, dx, dy }
    }
}

/// A search-tree vertex as the contracts see it: the unblocked cells of its
/// board, and the operation that produced it with the index of its parent
/// among the expanded nodes (none for the root).
pub struct NodeView {
    pub free: Set<(int, int)>,
    pub link: Option<(Operation, usize)>,
}

/// The search as the contracts see it: the expanded nodes, the stack of
/// nodes still to expand (top last), and the layout masks of each tile.
pub struct SearchView {
    pub closed: Seq<NodeView>,
    pub open: Seq<NodeView>,
    pub tiles: Seq<Seq<u16>>,
}

/// The child of a node with unblocked cells `free` for placing layout `l` of
/// tile `t` at `(dx, dy)`, if that placement is legal.
pub open spec fn candidate(
    free: Set<(int, int)>,
    masks: Seq<u16>,
    t: u8,
    l: int,
    dx: int,
    dy: int,
    parent: usize,
) -> Seq<NodeView> {
    let cov = covered(masks[l], dx, dy);
    if cov.subset_of(free) {
        seq![
            NodeView {
                free: free.difference(cov),
                link: Some((operation_of(t, l as u8, dx as u8, dy as u8), parent)),
            },
        ]
    } else {
        seq![]
    }
}

/// Legal placements of layout `l` in row `dy`, for the first `n` columns.
pub open spec fn row_placements(
    free: Set<(int, int)>,
    masks: Seq<u16>,
    t: u8,
    l: int,
    dy: int,
    n: int,
    parent: usize,
) -> Seq<NodeView>
    decreases n,
{
    if n <= 0 {
        seq![]
    } else {
        row_placements(free, masks, t, l, dy, n - 1, parent) + candidate(
            free,
            masks,
            t,
            l,
            n - 1,
            dy,
            parent,
        )
    }
}

/// Legal placements of layout `l`, for the first `n` rows.
pub open spec fn layout_placements(
    free: Set<(int, int)>,
    masks: Seq<u16>,
    t: u8,
    l: int,
    n: int,
    parent: usize,
) -> Seq<NodeView>
    decreases n,
{
    if n <= 0 {
        seq![]
    } else {
        layout_placements(free, masks, t, l, n - 1, parent) + row_placements(
            free,
            masks,
            t,
            l,
            n - 1,
            MAX_WIDTH as int,
            parent,
        )
    }
}

/// Legal placements of the first `n` layouts.
pub open spec fn placements_upto(
    free: Set<(int, int)>,
    masks: Seq<u16>,
    t: u8,
    n: int,
    parent: usize,
) -> Seq<NodeView>
    decreases n,
{
    if n <= 0 {
        seq![]
    } else {
        placements_upto(free, masks, t, n - 1, parent) + layout_placements(
            free,
            masks,
            t,
            n - 1,
            MAX_HEIGHT as int,
            parent,
        )
    }
}

/// Every legal placement of tile `t`, whose layout masks are `masks`, on a
/// node with unblocked cells `free`: layouts in order, then anchors row by
/// row, left to right.
pub open spec fn placements(free: Set<(int, int)>, masks: Seq<u16>, t: u8, parent: usize) -> Seq<
    NodeView,
> {
    placements_upto(free, masks, t, masks.len() as int, parent)
}

/// Whether every cell of `free` lies on the board.
pub open spec fn on_board(free: Set<(int, int)>) -> bool {
    forall|c: (int, int)| #[trigger] free.contains(c) ==> in_bounds(c.0, c.1)
}

/// `op` names an existing layout of an existing tile, anchored on the board,
/// and covers only cells of the board.
pub open spec fn valid_op(tiles: Seq<Seq<u16>>, op: Operation) -> bool {
    let t = op.indexed_tile_layout.tile_index as int;
    let l = op.indexed_tile_layout.layout_index as int;
    &&& t < tiles.len()
    &&& l < tiles[t].len()
    &&& in_bounds(op.dx as int, op.dy as int)
    &&& on_board(covered(tiles[t][l], op.dx as int, op.dy as int))
}

/// A node is well formed when its cells lie on the board and its link names
/// a valid operation and a parent below `bound`.
pub open spec fn node_wf(tiles: Seq<Seq<u16>>, n: NodeView, bound: int) -> bool {
    &&& on_board(n.free)
    &&& match n.link {
        None => true,
        Some((op, p)) => valid_op(tiles, op) && p < bound,
    }
}

/// The invariant of a search: tiles and layouts can be indexed by `u8`, every
/// expanded node's parent was expanded before it, and every node waiting on
/// the stack has an expanded parent.
pub open spec fn search_wf(s: SearchView) -> bool {
    &&& s.tiles.len() <= 256
    &&& forall|t: int| 0 <= t < s.tiles.len() ==> 0 < #[trigger] s.tiles[t].len() <= 256
    &&& forall|i: int| 0 <= i < s.closed.len() ==> node_wf(s.tiles, #[trigger] s.closed[i], i)
    &&& forall|i: int|
        0 <= i < s.open.len() ==> node_wf(s.tiles, #[trigger] s.open[i], s.closed.len() as int)
}

/// The operations on the path from the root to expanded node `i`, root first.
pub open spec fn path_to(closed: Seq<NodeView>, i: int) -> Seq<Operation>
    decreases i,
{
    if 0 <= i < closed.len() {
        match closed[i].link {
            None => seq![],
            Some((op, p)) => if (p as int) < i {
                path_to(closed, p as int).push(op)
            } else {
                seq![]
            },
        }
    } else {
        seq![]
    }
}

/// The operations that lead from the root to a node with link `link`, root first.
pub open spec fn path_of(closed: Seq<NodeView>, link: Option<(Operation, usize)>) -> Seq<Operation> {
    match link {
        None => seq![],
        Some((op, p)) => path_to(closed, p as int).push(op),
    }
}

/// Some operation of `ops` places tile `t`.
pub open spec fn uses_tile(ops: Seq<Operation>, t: int) -> bool {
    exists|j: int| 0 <= j < ops.len() && ops[j].indexed_tile_layout.tile_index as int == t
}

/// The tiles below `n` that no operation of `ops` places, in ascending order.
pub open spec fn remaining_upto(ops: Seq<Operation>, n: int) -> Seq<u8>
    decreases n,
{
    if n <= 0 {
        seq![]
    } else if uses_tile(ops, n - 1) {
        remaining_upto(ops, n - 1)
    } else {
        remaining_upto(ops, n - 1).push((n - 1) as u8)
    }
}

/// The search that starts from a board with unblocked cells `free`.
pub open spec fn initial_search(free: Set<(int, int)>, tiles: Seq<Seq<u16>>) -> SearchView {
    SearchView { closed: seq![], open: seq![NodeView { free, link: None }], tiles }
}

/// Of the remaining tiles `rem[0..k]`, the placements of the one with the
/// fewest legal placements; on a tie, the earliest.
pub open spec fn best_upto(
    free: Set<(int, int)>,
    tiles: Seq<Seq<u16>>,
    rem: Seq<u8>,
    parent: usize,
    k: int,
) -> Seq<NodeView>
    decreases k,
{
    if k <= 1 {
        placements(free, tiles[rem[0] as int], rem[0], parent)
    } else {
        let prev = best_upto(free, tiles, rem, parent, k - 1);
        let cur = placements(free, tiles[rem[k - 1] as int], rem[k - 1], parent);
        if cur.len() < prev.len() {
            cur
        } else {
            prev
        }
    }
}

/// One step of the search: the state after it, and the solution if the step
/// found one.
///
/// The top node leaves the stack. When its path places every tile, its
/// operations are the solution. Otherwise the remaining tile with the fewest
/// legal placements is chosen; with none, the node is a dead end and is
/// dropped; else the node is expanded and its children go on the stack.
pub open spec fn step_spec(s: SearchView) -> (SearchView, Option<Seq<Operation>>) {
    let node = s.open.last();
    let open = s.open.drop_last();
    let ops = path_of(s.closed, node.link);
    let rem = remaining_upto(ops, s.tiles.len() as int);
    if rem.len() == 0 {
        (SearchView { closed: s.closed, open, tiles: s.tiles }, Some(ops))
    } else {
        let best = best_upto(node.free, s.tiles, rem, s.closed.len() as usize, rem.len() as int);
        if best.len() == 0 {
            (SearchView { closed: s.closed, open, tiles: s.tiles }, None)
        } else {
            (SearchView { closed: s.closed.push(node), open: open + best, tiles: s.tiles }, None)
        }
    }
}

/// The outcome of at most `n` steps from `s`: the state reached, the number
/// of steps that found no solution, and the solution if one was found. The
/// run stops early when the stack is empty or a solution is found.
pub open spec fn run(s: SearchView, n: nat) -> (SearchView, nat, Option<Seq<Operation>>)
    decreases n,
{
    if n == 0 || s.open.len() == 0 {
        (s, 0, None)
    } else {
        let (s2, r) = step_spec(s);
        if r.is_some() {
            (s2, 0, r)
        } else {
            let (s3, k, r3) = run(s2, (n - 1) as nat);
            (s3, k + 1, r3)
        }
    }
}

/// `n` is a child of a node with cells `free` and index `parent`, for a
/// legal placement of tile `t` whose layout masks are `masks`.
spec fn placed_child(free: Set<(int, int)>, masks: Seq<u16>, t: u8, parent: usize, n: NodeView) -> bool {
    match n.link {
        None => false,
        Some((op, p)) => {
            let l = op.indexed_tile_layout.layout_index as int;
            let cov = covered(masks[l], op.dx as int, op.dy as int);
            &&& p == parent
            &&& op.indexed_tile_layout.tile_index == t
            &&& l < masks.len()
            &&& in_bounds(op.dx as int, op.dy as int)
            &&& cov.subset_of(free)
            &&& n.free == free.difference(cov)
        },
    }
}

proof fn lemma_row_children(
    free: Set<(int, int)>,
    masks: Seq<u16>,
    t: u8,
    l: int,
    dy: int,
    n: int,
    parent: usize,
)
    requires
        0 <= l < masks.len() <= 256,
        0 <= dy < MAX_HEIGHT,
        n <= MAX_WIDTH,
    ensures
        forall|j: int|
            0 <= j < row_placements(free, masks, t, l, dy, n, parent).len() ==> placed_child(
                free,
                masks,
                t,
                parent,
                #[trigger] row_placements(free, masks, t, l, dy, n, parent)[j],
            ),
    decreases n,
{
    if n > 0 {
        lemma_row_children(free, masks, t, l, dy, n - 1, parent);
        let a = row_placements(free, masks, t, l, dy, n - 1, parent);
        let b = candidate(free, masks, t, l, n - 1, dy, parent);
        assert forall|j: int| 0 <= j < (a + b).len() implies placed_child(free, masks, t, parent, #[trigger] (a + b)[j]) by {
            if j < a.len() {
                assert((a + b)[j] == a[j]);
            } else {
                assert((a + b)[j] == b[j - a.len()]);
            }
        }
    }
}

proof fn lemma_layout_children(
    free: Set<(int, int)>,
    masks: Seq<u16>,
    t: u8,
    l: int,
    n: int,
    parent: usize,
)
    requires
        0 <= l < masks.len() <= 256,
        n <= MAX_HEIGHT,
    ensures
        forall|j: int|
            0 <= j < layout_placements(free, masks, t, l, n, parent).len() ==> placed_child(
                free,
                masks,
                t,
                parent,
                #[trigger] layout_placements(free, masks, t, l, n, parent)[j],
            ),
    decreases n,
{
    if n > 0 {
        lemma_layout_children(free, masks, t, l, n - 1, parent);
        lemma_row_children(free, masks, t, l, n - 1, MAX_WIDTH as int, parent);
        let a = layout_placements(free, masks, t, l, n - 1, parent);
        let b = row_placements(free, masks, t, l, n - 1, MAX_WIDTH as int, parent);
        assert forall|j: int| 0 <= j < (a + b).len() implies placed_child(free, masks, t, parent, #[trigger] (a + b)[j]) by {
            if j < a.len() {
                assert((a + b)[j] == a[j]);
            } else {
                assert((a + b)[j] == b[j - a.len()]);
            }
        }
    }
}

proof fn lemma_children(free: Set<(int, int)>, masks: Seq<u16>, t: u8, n: int, parent: usize)
    requires
        masks.len() <= 256,
        n <= masks.len(),
    ensures
        forall|j: int|
            0 <= j < placements_upto(free, masks, t, n, parent).len() ==> placed_child(
                free,
                masks,
                t,
                parent,
                #[trigger] placements_upto(free, masks, t, n, parent)[j],
            ),
    decreases n,
{
    if n > 0 {
        lemma_children(free, masks, t, n - 1, parent);
        lemma_layout_children(free, masks, t, n - 1, MAX_HEIGHT as int, parent);
        let a = placements_upto(free, masks, t, n - 1, parent);
        let b = layout_placements(free, masks, t, n - 1, MAX_HEIGHT as int, parent);
        assert forall|j: int| 0 <= j < (a + b).len() implies placed_child(free, masks, t, parent, #[trigger] (a + b)[j]) by {
            if j < a.len() {
                assert((a + b)[j] == a[j]);
            } else {
                assert((a + b)[j] == b[j - a.len()]);
            }
        }
    }
}

proof fn lemma_remaining_below(ops: Seq<Operation>, n: int)
    requires
        n <= 256,
    ensures
        forall|j: int|
            0 <= j < remaining_upto(ops, n).len() ==> (#[trigger] remaining_upto(ops, n)[j] as int)
                < n,
        forall|j: int|
            0 <= j < remaining_upto(ops, n).len() ==> !uses_tile(
                ops,
                #[trigger] remaining_upto(ops, n)[j] as int,
            ),
    decreases n,
{
    if n > 0 {
        lemma_remaining_below(ops, n - 1);
        let a = remaining_upto(ops, n - 1);
        assert forall|j: int| 0 <= j < remaining_upto(ops, n).len() implies (#[trigger] remaining_upto(ops, n)[j] as int) < n
            && !uses_tile(ops, remaining_upto(ops, n)[j] as int) by {
            if j < a.len() {
                assert(remaining_upto(ops, n)[j] == a[j]);
            }
        }
    }
}

/// The choice is the placement list of one of the remaining tiles considered.
proof fn lemma_best_is_placements(
    free: Set<(int, int)>,
    tiles: Seq<Seq<u16>>,
    rem: Seq<u8>,
    parent: usize,
    k: int,
) -> (i: int)
    requires
        1 <= k <= rem.len(),
    ensures
        0 <= i < k,
        best_upto(free, tiles, rem, parent, k) == placements(
            free,
            tiles[rem[i] as int],
            rem[i],
            parent,
        ),
    decreases k,
{
    if k <= 1 {
        0
    } else {
        let i = lemma_best_is_placements(free, tiles, rem, parent, k - 1);
        let cur = placements(free, tiles[rem[k - 1] as int], rem[k - 1], parent);
        if cur.len() < best_upto(free, tiles, rem, parent, k - 1).len() {
            k - 1
        } else {
            i
        }
    }
}

/// A step keeps the search invariant.
proof fn lemma_step_wf(s: SearchView)
    requires
        search_wf(s),
        s.open.len() > 0,
    ensures
        search_wf(step_spec(s).0),
{
    let node = s.open.last();
    let ops = path_of(s.closed, node.link);
    let rem = remaining_upto(ops, s.tiles.len() as int);
    let parent = s.closed.len() as usize;
    assert(node_wf(s.tiles, s.open[s.open.len() - 1], s.closed.len() as int));
    if rem.len() > 0 {
        let best = best_upto(node.free, s.tiles, rem, parent, rem.len() as int);
        if best.len() > 0 {
            let i = lemma_best_is_placements(node.free, s.tiles, rem, parent, rem.len() as int);
            lemma_remaining_below(ops, s.tiles.len() as int);
            assert((rem[i] as int) < s.tiles.len());
            let t = rem[i];
            assert((t as int) < s.tiles.len());
            let masks = s.tiles[t as int];
            lemma_children(node.free, masks, t, masks.len() as int, parent);
            let s2 = step_spec(s).0;
            assert forall|j: int| 0 <= j < s2.closed.len() implies node_wf(
                s2.tiles,
                #[trigger] s2.closed[j],
                j,
            ) by {
                if j < s.closed.len() {
                    assert(s2.closed[j] == s.closed[j]);
                }
            }
            assert forall|j: int| 0 <= j < s2.open.len() implies node_wf(
                s2.tiles,
                #[trigger] s2.open[j],
                s2.closed.len() as int,
            ) by {
                if j < s.open.len() - 1 {
                    assert(s2.open[j] == s.open[j]);
                } else {
                    let c = best[j - (s.open.len() - 1)];
                    assert(s2.open[j] == c);
                    assert(placed_child(node.free, masks, t, parent, c));
                    let (op, p) = c.link.unwrap();
                    let l = op.indexed_tile_layout.layout_index as int;
                    let cov = covered(masks[l], op.dx as int, op.dy as int);
                    assert forall|x: (int, int)| #[trigger] cov.contains(x) implies in_bounds(x.0, x.1) by {
                        assert(node.free.contains(x));
                    }
                    assert forall|x: (int, int)| #[trigger] c.free.contains(x) implies in_bounds(x.0, x.1) by {
                        assert(node.free.contains(x));
                    }
                }
            }
        } else {
            let s2 = step_spec(s).0;
            assert forall|j: int| 0 <= j < s2.open.len() implies node_wf(
                s2.tiles,
                #[trigger] s2.open[j],
                s2.closed.len() as int,
            ) by {
                assert(s2.open[j] == s.open[j]);
            }
        }
    } else {
        let s2 = step_spec(s).0;
        assert forall|j: int| 0 <= j < s2.open.len() implies node_wf(
            s2.tiles,
            #[trigger] s2.open[j],
            s2.closed.len() as int,
        ) by {
            assert(s2.open[j] == s.open[j]);
        }
    }
}

/// Every operation on a path of a well-formed search is valid.
proof fn lemma_path_valid(s: SearchView, i: int)
    requires
        search_wf(s),
    ensures
        forall|j: int| 0 <= j < path_to(s.closed, i).len() ==> valid_op(s.tiles, #[trigger] path_to(s.closed, i)[j]),
    decreases i,
{
    if 0 <= i < s.closed.len() {
        assert(node_wf(s.tiles, s.closed[i], i));
        match s.closed[i].link {
            None => {},
            Some((op, p)) => {
                lemma_path_valid(s, p as int);
                let a = path_to(s.closed, p as int);
                assert forall|j: int| 0 <= j < a.push(op).len() implies valid_op(s.tiles, #[trigger] a.push(op)[j]) by {
                    if j < a.len() {
                        assert(a.push(op)[j] == a[j]);
                    }
                }
            },
        }
    }
}

/// Running `a` steps and then `b` more from where the first run stopped
/// gives the same state, total step count and solution as running `a + b`
/// steps at once; when the first run already found a solution, running
/// `a + b` steps stops at that same solution.
pub proof fn lemma_run_resumable(s: SearchView, a: nat, b: nat)
    ensures
        ({
            let (s1, k1, r1) = run(s, a);
            if r1.is_some() {
                run(s, a + b) == run(s, a)
            } else {
                let (s2, k2, r2) = run(s1, b);
                run(s, a + b) == (s2, k1 + k2, r2)
            }
        }),
    decreases a,
{
    if a > 0 && s.open.len() > 0 {
        let (s1, r) = step_spec(s);
        if r.is_none() {
            lemma_run_resumable(s1, (a - 1) as nat, b);
            assert((a + b - 1) as nat == (a - 1) as nat + b);
        }
    }
}

/// A search over no tiles returns the empty list of operations on its first
/// step, and then has nothing left to expand.
pub proof fn lemma_no_tiles_solved_at_once(free: Set<(int, int)>)
    ensures
        step_spec(initial_search(free, seq![])).1 == Some(Seq::<Operation>::empty()),
        step_spec(initial_search(free, seq![])).0.open.len() == 0,
{
    let s = initial_search(free, seq![]);
    assert(s.open.drop_last() =~= seq![]);
    assert(remaining_upto(seq![], 0) == Seq::<u8>::empty());
}

proof fn lemma_empty_mask_covers_nothing(dx: int, dy: int)
    ensures
        covered(0u16, dx, dy) == Set::<(int, int)>::empty(),
{
    assert forall|c: (int, int)| !covered(0u16, dx, dy).contains(c) by {
        let i = (c.0 - dx) + 4 * (c.1 - dy);
        if 0 <= i < 16 {
            let k = i as u16;
            assert((0u16 >> k) & 1u16 != 1u16) by (bit_vector);
        }
    }
    assert(covered(0u16, dx, dy) =~= Set::<(int, int)>::empty());
}

proof fn lemma_empty_row(free: Set<(int, int)>, dy: int, n: int, parent: usize)
    requires
        0 <= n <= MAX_WIDTH,
        0 <= dy < MAX_HEIGHT,
    ensures
        row_placements(free, seq![0u16], 0, 0, dy, n, parent).len() == n,
        n > 0 ==> row_placements(free, seq![0u16], 0, 0, dy, n, parent).last() == (NodeView {
            free,
            link: Some((operation_of(0, 0, (n - 1) as u8, dy as u8), parent)),
        }),
    decreases n,
{
    if n > 0 {
        lemma_empty_row(free, dy, n - 1, parent);
        lemma_empty_mask_covers_nothing(n - 1, dy);
        assert(free.difference(Set::<(int, int)>::empty()) =~= free);
    }
}

proof fn lemma_empty_layout(free: Set<(int, int)>, n: int, parent: usize)
    requires
        0 <= n <= MAX_HEIGHT,
    ensures
        layout_placements(free, seq![0u16], 0, 0, n, parent).len() == MAX_WIDTH * n,
        n > 0 ==> layout_placements(free, seq![0u16], 0, 0, n, parent).last() == (NodeView {
            free,
            link: Some((operation_of(0, 0, (MAX_WIDTH - 1) as u8, (n - 1) as u8), parent)),
        }),
    decreases n,
{
    if n > 0 {
        lemma_empty_layout(free, n - 1, parent);
        lemma_empty_row(free, n - 1, MAX_WIDTH as int, parent);
    }
}

/// With one tile whose only layout covers no cell, every anchor is a legal
/// placement: after the root is expanded the first solution comes on the
/// next step, and further candidates remain, so the search goes on.
pub proof fn lemma_empty_tile_keeps_solving(free: Set<(int, int)>)
    ensures
        ({
            let (s1, r1) = step_spec(initial_search(free, seq![seq![0u16]]));
            let (s2, r2) = step_spec(s1);
            &&& r1.is_none()
            &&& r2 == Some(seq![operation_of(0, 0, (MAX_WIDTH - 1) as u8, (MAX_HEIGHT - 1) as u8)])
            &&& s2.open.len() > 0
        }),
{
    let tiles = seq![seq![0u16]];
    let s = initial_search(free, tiles);
    let root = s.open.last();
    assert(path_of(s.closed, root.link) == Seq::<Operation>::empty());
    assert(!uses_tile(Seq::<Operation>::empty(), 0));
    let rem = remaining_upto(Seq::<Operation>::empty(), 1);
    assert(remaining_upto(Seq::<Operation>::empty(), 0) == Seq::<u8>::empty());
    assert(rem =~= seq![0u8]);
    lemma_empty_layout(free, MAX_HEIGHT as int, 0);
    let kids = placements(free, tiles[0], 0, 0);
    assert(tiles[0] == seq![0u16]);
    assert(placements_upto(free, seq![0u16], 0, 0, 0) == Seq::<NodeView>::empty());
    assert(kids =~= layout_placements(free, seq![0u16], 0, 0, MAX_HEIGHT as int, 0));
    assert(kids.len() == 30);
    let (s1, r1) = step_spec(s);
    assert(s.open.drop_last() =~= seq![]);
    assert(s1.open == seq![] + kids);
    assert(s1.open =~= kids);
    let child = s1.open.last();
    let op = operation_of(0, 0, (MAX_WIDTH - 1) as u8, (MAX_HEIGHT - 1) as u8);
    assert(child.link == Some((op, 0usize)));
    assert(s1.closed == seq![root]);
    assert(path_to(s1.closed, 0) == Seq::<Operation>::empty());
    let ops = path_of(s1.closed, child.link);
    assert(ops =~= seq![op]);
    assert(ops[0].indexed_tile_layout.tile_index == 0);
    assert(uses_tile(ops, 0));
    assert(remaining_upto(ops, 0) == Seq::<u8>::empty());
    assert(remaining_upto(ops, 1) == Seq::<u8>::empty());
}

/// The cells that `op` covers, for tiles with layout masks `tiles`.
pub open spec fn op_cells(tiles: Seq<Seq<u16>>, op: Operation) -> Set<(int, int)> {
    covered(
        tiles[op.indexed_tile_layout.tile_index as int][op.indexed_tile_layout.layout_index as int],
        op.dx as int,
        op.dy as int,
    )
}

/// The cells of `root` still unblocked after placing `ops` in order.
pub open spec fn cells_after(tiles: Seq<Seq<u16>>, root: Set<(int, int)>, ops: Seq<Operation>) -> Set<
    (int, int),
>
    decreases ops.len(),
{
    if ops.len() == 0 {
        root
    } else {
        cells_after(tiles, root, ops.drop_last()).difference(op_cells(tiles, ops.last()))
    }
}

/// Placing `ops` in order from the unblocked cells `root`, each operation
/// places a tile that no earlier one placed, on cells that are still
/// unblocked.
pub open spec fn legal_sequence(tiles: Seq<Seq<u16>>, root: Set<(int, int)>, ops: Seq<Operation>) -> bool
    decreases ops.len(),
{
    ops.len() == 0 || {
        let prefix = ops.drop_last();
        &&& legal_sequence(tiles, root, prefix)
        &&& !uses_tile(prefix, ops.last().indexed_tile_layout.tile_index as int)
        &&& op_cells(tiles, ops.last()).subset_of(cells_after(tiles, root, prefix))
    }
}

/// `n` is reached from the unblocked cells `root` by a legal sequence of
/// operations, and its unblocked cells are those that sequence leaves.
#[verifier::opaque]
spec fn node_reached(
    closed: Seq<NodeView>,
    tiles: Seq<Seq<u16>>,
    root: Set<(int, int)>,
    n: NodeView,
) -> bool {
    let ops = path_of(closed, n.link);
    legal_sequence(tiles, root, ops) && n.free == cells_after(tiles, root, ops)
}

/// Every node of `s` is reached from the unblocked cells `root`.
spec fn reached_from(s: SearchView, root: Set<(int, int)>) -> bool {
    &&& forall|i: int|
        0 <= i < s.closed.len() ==> node_reached(s.closed, s.tiles, root, #[trigger] s.closed[i])
    &&& forall|i: int|
        0 <= i < s.open.len() ==> node_reached(s.closed, s.tiles, root, #[trigger] s.open[i])
}

/// Expanding a node leaves the paths of the nodes expanded before it alone.
proof fn lemma_path_to_push(s: SearchView, x: NodeView, i: int)
    requires
        search_wf(s),
        0 <= i < s.closed.len(),
    ensures
        path_to(s.closed.push(x), i) == path_to(s.closed, i),
    decreases i,
{
    assert(node_wf(s.tiles, s.closed[i], i));
    assert(s.closed.push(x)[i] == s.closed[i]);
    match s.closed[i].link {
        None => {},
        Some((op, p)) => {
            lemma_path_to_push(s, x, p as int);
        },
    }
}

proof fn lemma_path_of_push(s: SearchView, x: NodeView, link: Option<(Operation, usize)>)
    requires
        search_wf(s),
        match link {
            None => true,
            Some((op, p)) => (p as int) < s.closed.len(),
        },
    ensures
        path_of(s.closed.push(x), link) == path_of(s.closed, link),
{
    match link {
        None => {},
        Some((op, p)) => {
            lemma_path_to_push(s, x, p as int);
        },
    }
}

/// A child of the top node, for a tile that its path has not placed yet, is
/// reached from `root` once the top node is expanded.
proof fn lemma_child_reached(s: SearchView, root: Set<(int, int)>, t: u8, c: NodeView)
    requires
        search_wf(s),
        s.open.len() > 0,
        s.closed.len() <= usize::MAX,
        node_reached(s.closed, s.tiles, root, s.open.last()),
        node_wf(s.tiles, s.open.last(), s.closed.len() as int),
        (t as int) < s.tiles.len(),
        !uses_tile(path_of(s.closed, s.open.last().link), t as int),
        placed_child(s.open.last().free, s.tiles[t as int], t, s.closed.len() as usize, c),
    ensures
        node_reached(s.closed.push(s.open.last()), s.tiles, root, c),
{
    reveal(node_reached);
    let node = s.open.last();
    let ops = path_of(s.closed, node.link);
    let parent = s.closed.len() as usize;
    let masks = s.tiles[t as int];
    let (op, p) = c.link.unwrap();
    let closed2 = s.closed.push(node);
    assert(closed2[parent as int] == node);
    lemma_path_of_push(s, node, node.link);
    assert(path_to(closed2, parent as int) == path_of(closed2, node.link));
    let ops2 = path_of(closed2, c.link);
    assert(ops2 == ops.push(op));
    assert(ops2.drop_last() =~= ops);
    assert(op_cells(s.tiles, op) == covered(
        masks[op.indexed_tile_layout.layout_index as int],
        op.dx as int,
        op.dy as int,
    ));
}

/// Expanding a node keeps the nodes that were already there reached.
proof fn lemma_reached_push(
    s: SearchView,
    root: Set<(int, int)>,
    x: NodeView,
    n: NodeView,
    bound: int,
)
    requires
        search_wf(s),
        node_wf(s.tiles, n, bound),
        bound <= s.closed.len(),
        node_reached(s.closed, s.tiles, root, n),
    ensures
        node_reached(s.closed.push(x), s.tiles, root, n),
{
    reveal(node_reached);
    lemma_path_of_push(s, x, n.link);
}

/// A step keeps every node reached from `root`.
proof fn lemma_step_reached(s: SearchView, root: Set<(int, int)>)
    requires
        search_wf(s),
        reached_from(s, root),
        s.open.len() > 0,
        s.closed.len() <= usize::MAX,
    ensures
        reached_from(step_spec(s).0, root),
{
    let node = s.open.last();
    let ops = path_of(s.closed, node.link);
    let rem = remaining_upto(ops, s.tiles.len() as int);
    let parent = s.closed.len() as usize;
    let s2 = step_spec(s).0;
    assert(node_wf(s.tiles, s.open[s.open.len() - 1], s.closed.len() as int));
    if rem.len() > 0 && best_upto(node.free, s.tiles, rem, parent, rem.len() as int).len() > 0 {
        let best = best_upto(node.free, s.tiles, rem, parent, rem.len() as int);
        assert(s2.closed == s.closed.push(node));
        assert(s2.open == s.open.drop_last() + best);
        let i = lemma_best_is_placements(node.free, s.tiles, rem, parent, rem.len() as int);
        lemma_remaining_below(ops, s.tiles.len() as int);
        let t = rem[i];
        let masks = s.tiles[t as int];
        lemma_children(node.free, masks, t, masks.len() as int, parent);
        assert forall|j: int| 0 <= j < s2.closed.len() implies node_reached(
            s2.closed,
            s2.tiles,
            root,
            #[trigger] s2.closed[j],
        ) by {
            if j < s.closed.len() {
                assert(s2.closed[j] == s.closed[j]);
                assert(node_wf(s.tiles, s.closed[j], j));
                lemma_reached_push(s, root, node, s.closed[j], j);
            } else {
                assert(s2.closed[j] == node);
                lemma_reached_push(s, root, node, node, s.closed.len() as int);
            }
        }
        assert forall|j: int| 0 <= j < s2.open.len() implies node_reached(
            s2.closed,
            s2.tiles,
            root,
            #[trigger] s2.open[j],
        ) by {
            if j < s.open.len() - 1 {
                assert(s2.open[j] == s.open[j]);
                assert(node_wf(s.tiles, s.open[j], s.closed.len() as int));
                lemma_reached_push(s, root, node, s.open[j], s.closed.len() as int);
            } else {
                let c = best[j - (s.open.len() - 1)];
                assert(s2.open[j] == c);
                lemma_child_reached(s, root, t, c);
            }
        }
    } else {
        assert(s2.closed == s.closed);
        assert(s2.open == s.open.drop_last());
        assert forall|j: int| 0 <= j < s2.open.len() implies node_reached(
            s2.closed,
            s2.tiles,
            root,
            #[trigger] s2.open[j],
        ) by {
            assert(s2.open[j] == s.open[j]);
        }
    }
}

proof fn lemma_none_remaining(ops: Seq<Operation>, n: int)
    requires
        remaining_upto(ops, n).len() == 0,
    ensures
        forall|t: int| 0 <= t < n ==> uses_tile(ops, t),
    decreases n,
{
    if n > 0 {
        lemma_none_remaining(ops, n - 1);
    }
}

proof fn lemma_run_reached(s: SearchView, root: Set<(int, int)>, n: nat)
    requires
        search_wf(s),
        reached_from(s, root),
        s.closed.len() + n <= usize::MAX,
    ensures
        run(s, n).2 matches Some(ops) ==> legal_sequence(s.tiles, root, ops) && forall|t: int|
            0 <= t < s.tiles.len() ==> uses_tile(ops, t),
    decreases n,
{
    if n > 0 && s.open.len() > 0 {
        lemma_step_wf(s);
        lemma_step_reached(s, root);
        let (s1, r) = step_spec(s);
        if r.is_some() {
            let node = s.open.last();
            let ops = path_of(s.closed, node.link);
            assert(node_reached(s.closed, s.tiles, root, s.open[s.open.len() - 1]));
            reveal(node_reached);
            lemma_none_remaining(ops, s.tiles.len() as int);
        } else {
            lemma_run_reached(s1, root, (n - 1) as nat);
        }
    }
}

/// Every solution of a search that starts from a board with unblocked cells
/// `free` places each tile exactly once: placing its operations in order,
/// each puts a tile that no earlier one placed on cells that are still
/// unblocked, and every tile is placed.
pub proof fn lemma_solutions_place_every_tile_once(
    free: Set<(int, int)>,
    tiles: Seq<Seq<u16>>,
    n: nat,
)
    requires
        search_wf(initial_search(free, tiles)),
        n <= usize::MAX,
    ensures
        run(initial_search(free, tiles), n).2 matches Some(ops) ==> legal_sequence(tiles, free, ops)
            && forall|t: int| 0 <= t < tiles.len() ==> uses_tile(ops, t),
{
    let s = initial_search(free, tiles);
    assert(node_reached(s.closed, s.tiles, free, s.open[0])) by {
        reveal(node_reached);
    }
    lemma_run_reached(s, free, n);
}

/// What a step hands back, as the contracts see it.
pub open spec fn solution_view(r: Option<Vec<Operation>>) -> Option<Seq<Operation>> {
    match r {
        Some(v) => Some(v@),
        None => None,
    }
}

proof fn lemma_path_step(s: SearchView, p: int)
    requires
        search_wf(s),
        0 <= p < s.closed.len(),
    ensures
        path_to(s.closed, p) == path_of(s.closed, s.closed[p].link),
{
    assert(node_wf(s.tiles, s.closed[p], p));
}

struct Node {
    board: Board,
    operation_and_parent_index: Option<(Operation, usize)>,
}

impl View for Node {
    type V = NodeView;

    closed spec fn view(&self) -> NodeView {
        NodeView { free: self.board@, link: self.operation_and_parent_index }
    }
}

/// The views of `nodes`, in order.
spec fn views_of(nodes: Seq<Node>) -> Seq<NodeView> {
    nodes.map_values(|n: Node| n@)
}

impl Node {
    fn new_root(board: Board) -> (r: Node)
        ensures
            r@ == (NodeView { free: board@, link: None }),
    {
        Node { board, operation_and_parent_index: None }
    }

    /// The children of this node, with parent index `own_index`, for every
    /// legal placement of `tile`, which has index `tile_index`.
    fn find_all_fits(&self, own_index: usize, tile: &Tile, tile_index: u8) -> (r: Vec<Node>)
        requires
            tile.wf(),
        ensures
            views_of(r@) == placements(self@.free, masks_of(tile@), tile_index, own_index),
    {
        let ghost free = self@.free;
        let ghost masks = masks_of(tile@);
        let layouts = tile.get_layouts();
        let mut result: Vec<Node> = Vec::new();
        let mut l: usize = 0;
        while l < layouts.len()
            invariant
                layouts@ == tile@,
                masks == masks_of(tile@),
                free == self@.free,
                tile.wf(),
                l <= layouts.len(),
                views_of(result@) == placements_upto(free, masks, tile_index, l as int, own_index),
            decreases layouts.len() - l,
        {
            let layout_index = l as u8;
            let mut dy: u8 = 0;
            while dy < MAX_HEIGHT
                invariant
                    layouts@ == tile@,
                    masks == masks_of(tile@),
                    free == self@.free,
                    tile.wf(),
                    l < layouts.len(),
                    layout_index == l,
                    dy <= MAX_HEIGHT,
                    views_of(result@) == placements_upto(free, masks, tile_index, l as int, own_index)
                        + layout_placements(free, masks, tile_index, l as int, dy as int, own_index),
                decreases MAX_HEIGHT - dy,
            {
                let mut dx: u8 = 0;
                while dx < MAX_WIDTH
                    invariant
                        layouts@ == tile@,
                        masks == masks_of(tile@),
                        free == self@.free,
                        tile.wf(),
                        l < layouts.len(),
                        layout_index == l,
                        dy < MAX_HEIGHT,
                        dx <= MAX_WIDTH,
                        views_of(result@) == placements_upto(
                            free,
                            masks,
                            tile_index,
                            l as int,
                            own_index,
                        ) + layout_placements(free, masks, tile_index, l as int, dy as int, own_index)
                            + row_placements(
                            free,
                            masks,
                            tile_index,
                            l as int,
                            dy as int,
                            dx as int,
                            own_index,
                        ),
                    decreases MAX_WIDTH - dx,
                {
                    let ghost before = views_of(result@);
                    assert(masks[l as int] == layouts@[l as int]@);
                    if let Some(child_board) = self.board.with_blocked_tile(&layouts[l], dx, dy) {
                        let operation = Operation::from(tile_index, layout_index, dx, dy);
                        let child = Node {
                            board: child_board,
                            operation_and_parent_index: Some((operation, own_index)),
                        };
                        result.push(child);
                        assert(views_of(result@) =~= before.push(child@));
                    }
                    assert(row_placements(free, masks, tile_index, l as int, dy as int, dx + 1, own_index)
                        == row_placements(free, masks, tile_index, l as int, dy as int, dx as int, own_index)
                        + candidate(free, masks, tile_index, l as int, dx as int, dy as int, own_index));
                    assert(views_of(result@) =~= placements_upto(
                        free,
                        masks,
                        tile_index,
                        l as int,
                        own_index,
                    ) + layout_placements(free, masks, tile_index, l as int, dy as int, own_index)
                        + row_placements(
                        free,
                        masks,
                        tile_index,
                        l as int,
                        dy as int,
                        dx + 1,
                        own_index,
                    ));
                    dx = dx + 1;
                }
                assert(views_of(result@) =~= placements_upto(free, masks, tile_index, l as int, own_index)
                    + layout_placements(free, masks, tile_index, l as int, dy + 1, own_index));
                dy = dy + 1;
            }
            assert(views_of(result@) =~= placements_upto(free, masks, tile_index, l + 1, own_index));
            l = l + 1;
        }
        result
    }
}

/// The tile masks of `tiles`, in order.
pub open spec fn tile_masks(tiles: Seq<Tile>) -> Seq<Seq<u16>> {
    tiles.map_values(|t: Tile| masks_of(t@))
}

/// A resumable depth-first search for placing every tile of a list so that
/// together they cover exactly the unblocked cells of a board.
pub struct State<'a> {
    closed: Vec<Node>,
    open: Vec<Node>,
    tiles: &'a [Tile],
}

impl<'a> View for State<'a> {
    type V = SearchView;

    closed spec fn view(&self) -> SearchView {
        SearchView {
            closed: views_of(self.closed@),
            open: views_of(self.open@),
            tiles: tile_masks(self.tiles@),
        }
    }
}

impl<'a> State<'a> {
    pub fn new(initial_board: Board, tiles: &'a [Tile]) -> (r: Self)
        requires
            tiles.len() <= 256,
            forall|t: int| 0 <= t < tiles.len() ==> #[trigger] tiles@[t].wf(),
        ensures
            r@ == initial_search(initial_board@, tile_masks(tiles@)),
            search_wf(r@),
    {
        proof {
            crate::board::lemma_view_in_bounds(initial_board);
        }
        let r = Self { closed: vec![], open: vec![Node::new_root(initial_board)], tiles };
        assert(r@.closed =~= seq![]);
        assert(r@.open =~= seq![NodeView { free: initial_board@, link: None }]);
        assert forall|t: int| 0 <= t < r@.tiles.len() implies 0 < #[trigger] r@.tiles[t].len() <= 256 by {
            assert(tiles@[t].wf());
        }
        r
    }

    /// Number of expanded nodes.
    pub fn closed_len(&self) -> (r: usize)
        ensures
            r == self@.closed.len(),
    {
        self.closed.len()
    }

    /// Number of nodes waiting to be expanded.
    pub fn open_len(&self) -> (r: usize)
        ensures
            r == self@.open.len(),
    {
        self.open.len()
    }

    pub fn can_step(&self) -> (r: bool)
        ensures
            r == (self@.open.len() > 0),
    {
        !self.open.is_empty()
    }

    /// The tiles that no operation on the path to `node` places, ascending.
    fn compute_remaining_tiles(&self, node: &Node) -> (r: Vec<u8>)
        requires
            search_wf(self@),
            node_wf(self@.tiles, node@, self@.closed.len() as int),
        ensures
            r@ == remaining_upto(path_of(self@.closed, node@.link), self@.tiles.len() as int),
    {
        let ghost closed = self@.closed;
        let ghost whole = path_of(closed, node@.link);
        let n = self.tiles.len();
        let mut available: Vec<bool> = vec![true; n];
        let mut link = node.operation_and_parent_index;
        let ghost mut visited: Seq<Operation> = seq![];
        while link.is_some()
            invariant
                search_wf(self@),
                closed == self@.closed,
                n == self@.tiles.len(),
                available.len() == n,
                whole == path_of(closed, link) + visited,
                match link {
                    None => true,
                    Some((op, p)) => valid_op(self@.tiles, op) && (p as int) < closed.len(),
                },
                forall|t: int| 0 <= t < n ==> #[trigger] available@[t] == !uses_tile(visited, t),
            decreases
                match link {
                    None => 0,
                    Some((_, p)) => p + 1,
                },
        {
            let (operation, parent_index) = link.unwrap();
            let tile_index = operation.indexed_tile_layout.tile_index as usize;
            let ghost prev = visited;
            available.set(tile_index, false);
            proof {
                visited = seq![operation] + prev;
                lemma_path_step(self@, parent_index as int);
                assert(node_wf(self@.tiles, closed[parent_index as int], parent_index as int));
                assert forall|t: int| 0 <= t < n implies #[trigger] available@[t] == !uses_tile(visited, t) by {
                    if uses_tile(prev, t) {
                        let j = choose|j: int| 0 <= j < prev.len() && prev[j].indexed_tile_layout.tile_index as int == t;
                        assert(visited[j + 1] == prev[j]);
                    }
                    if t == tile_index {
                        assert(visited[0] == operation);
                    } else if uses_tile(visited, t) {
                        let j = choose|j: int| 0 <= j < visited.len() && visited[j].indexed_tile_layout.tile_index as int == t;
                        assert(prev[j - 1] == visited[j]);
                    }
                }
            }
            link = self.closed[parent_index].operation_and_parent_index;
            assert(whole =~= path_of(closed, link) + visited);
        }
        assert(whole =~= visited);
        let mut r: Vec<u8> = Vec::new();
        let mut t: usize = 0;
        while t < n
            invariant
                n == self@.tiles.len(),
                n <= 256,
                t <= n,
                available.len() == n,
                forall|u: int| 0 <= u < n ==> #[trigger] available@[u] == !uses_tile(whole, u),
                r@ == remaining_upto(whole, t as int),
            decreases n - t,
        {
            if available[t] {
                r.push(t as u8);
            }
            t = t + 1;
        }
        r
    }

    /// Performs one step of the search: see `step_spec`. A solution lists
    /// its operations in placement order.
    pub fn step_single(&mut self) -> (r: Option<Vec<Operation>>)
        requires
            search_wf(old(self)@),
            old(self)@.open.len() > 0,
        ensures
            search_wf(final(self)@),
            (final(self)@, solution_view(r)) == step_spec(old(self)@),
            r matches Some(ops) ==> forall|j: int|
                0 <= j < ops.len() ==> valid_op(old(self)@.tiles, #[trigger] ops@[j]),
    {
        proof {
            lemma_step_wf(self@);
        }
        let ghost s = self@;
        let node = self.open.pop().unwrap();
        assert(self@.open =~= s.open.drop_last());
        assert(node@ == s.open.last());
        assert(node_wf(s.tiles, s.open[s.open.len() - 1], s.closed.len() as int));
        let remaining = self.compute_remaining_tiles(&node);
        if remaining.len() == 0 {
            let r = self.as_result(&node);
            proof {
                match node@.link {
                    None => {},
                    Some((op, p)) => {
                        lemma_path_valid(s, p as int);
                        let a = path_to(s.closed, p as int);
                        assert forall|j: int| 0 <= j < a.push(op).len() implies valid_op(s.tiles, #[trigger] a.push(op)[j]) by {
                            if j < a.len() {
                                assert(a.push(op)[j] == a[j]);
                            }
                        }
                    },
                }
            }
            return Some(r);
        }
        let next_parent_index = self.closed.len();
        let ghost rem = remaining@;
        proof {
            lemma_remaining_below(path_of(s.closed, node@.link), s.tiles.len() as int);
        }
        let first = remaining[0];
        assert(s.tiles[first as int] == masks_of(self.tiles@[first as int]@));
        let mut best = node.find_all_fits(next_parent_index, &self.tiles[first as usize], first);
        let mut k: usize = 1;
        while k < remaining.len()
            invariant
                s.open.len() > 0,
                self@ == (SearchView { closed: s.closed, open: s.open.drop_last(), tiles: s.tiles }),
                search_wf(s),
                remaining@ == rem,
                rem == remaining_upto(path_of(s.closed, node@.link), s.tiles.len() as int),
                forall|j: int| 0 <= j < rem.len() ==> (#[trigger] rem[j] as int) < s.tiles.len(),
                next_parent_index == s.closed.len(),
                1 <= k <= remaining.len(),
                views_of(best@) == best_upto(node@.free, s.tiles, rem, next_parent_index, k as int),
            decreases remaining.len() - k,
        {
            let t = remaining[k];
            assert((t as int) < s.tiles.len());
            assert(s.tiles[t as int] == masks_of(self.tiles@[t as int]@));
            let current = node.find_all_fits(next_parent_index, &self.tiles[t as usize], t);
            if current.len() < best.len() {
                best = current;
            }
            k = k + 1;
        }
        if best.len() == 0 {
            return None;
        }
        let ghost children = views_of(best@);
        self.closed.push(node);
        self.open.append(&mut best);
        assert(self@.closed =~= s.closed.push(node@));
        assert(self@.open =~= s.open.drop_last() + children);
        None
    }

    /// Performs up to `max_steps` steps, stopping early at a solution or when
    /// nothing is left to expand: see `run`. Returns the number of steps that
    /// found no solution, and the solution if one was found.
    pub fn step_at_most(&mut self, max_steps: usize) -> (r: (usize, Option<Vec<Operation>>))
        requires
            search_wf(old(self)@),
        ensures
            search_wf(final(self)@),
            run(old(self)@, max_steps as nat) == (final(self)@, r.0 as nat, solution_view(r.1)),
            r.1 matches Some(ops) ==> forall|j: int|
                0 <= j < ops.len() ==> valid_op(old(self)@.tiles, #[trigger] ops@[j]),
    {
        let ghost s0 = self@;
        let mut steps_done: usize = 0;
        while steps_done < max_steps
            invariant
                s0 == old(self)@,
                search_wf(self@),
                self@.tiles == s0.tiles,
                steps_done <= max_steps,
                run(s0, max_steps as nat) == ({
                    let (s3, k, r3) = run(self@, (max_steps - steps_done) as nat);
                    (s3, (k + steps_done) as nat, r3)
                }),
            decreases max_steps - steps_done,
        {
            let ghost before = self@;
            if !self.can_step() {
                assert(run(before, (max_steps - steps_done) as nat) == (before, 0nat, None::<Seq<Operation>>));
                return (steps_done, None);
            }
            let result_maybe = self.step_single();
            assert(run(before, (max_steps - steps_done) as nat) == ({
                let (s3, k, r3) = run(self@, (max_steps - steps_done - 1) as nat);
                if solution_view(result_maybe).is_some() { (self@, 0nat, solution_view(result_maybe)) } else { (s3, k + 1, r3) }
            }));
            if result_maybe.is_some() {
                return (steps_done, result_maybe);
            }
            steps_done = steps_done + 1;
        }
        (max_steps, None)
    }

    /// The operations on the path to `node`, root first.
    fn as_result(&self, node: &Node) -> (r: Vec<Operation>)
        requires
            search_wf(self@),
            node_wf(self@.tiles, node@, self@.closed.len() as int),
        ensures
            r@ == path_of(self@.closed, node@.link),
    {
        let ghost closed = self@.closed;
        let ghost whole = path_of(closed, node@.link);
        let mut result: Vec<Operation> = Vec::new();
        let mut link = node.operation_and_parent_index;
        while link.is_some()
            invariant
                search_wf(self@),
                closed == self@.closed,
                whole == path_of(closed, link) + result@,
                match link {
                    None => true,
                    Some((op, p)) => (p as int) < closed.len(),
                },
            decreases
                match link {
                    None => 0,
                    Some((_, p)) => p + 1,
                },
        {
            let (operation, parent_index) = link.unwrap();
            let ghost prev = result@;
            result.insert(0, operation);
            proof {
                lemma_path_step(self@, parent_index as int);
                assert(node_wf(self@.tiles, closed[parent_index as int], parent_index as int));
            }
            link = self.closed[parent_index].operation_and_parent_index;
            assert(whole =~= path_of(closed, link) + result@);
        }
        assert(whole =~= result@);
        result
    }
}

} // verus!
