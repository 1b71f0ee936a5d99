//! The integer pass of continent generation: smoothing a land/sea map so the coast is not
//! confetti.

use vstd::prelude::*;

use crate::board::{adjacency_ok, Board};
use crate::tile::TileId;

verus! {

/// How many of the tiles `nbrs` are land (level 0) in `levels`.
pub open spec fn land_neighbors(levels: Seq<i32>, nbrs: Seq<TileId>) -> nat
    decreases nbrs.len(),
{
    if nbrs.len() == 0 {
        0
    } else {
        land_neighbors(levels, nbrs.drop_last()) + if levels[nbrs.last().0 as int] == 0 { 1nat } else { 0nat }
    }
}

/// Tile `i` after smoothing: land with at most one land neighbour sinks (a lone islet), sea with
/// at least `sides - 1` land neighbours rises (a lone puddle); every other tile keeps its level.
/// Every decision reads the map before the pass.
pub open spec fn smoothed_level(levels: Seq<i32>, adj: Seq<Seq<TileId>>, sides: Seq<usize>, i: int) -> i32 {
    let land = land_neighbors(levels, adj[i]);
    if levels[i] == 0 && land <= 1 {
        -1i32
    } else if levels[i] == -1 && land >= sides[i] - 1 {
        0i32
    } else {
        levels[i]
    }
}

proof fn lemma_land_neighbors_filter(levels: Seq<i32>, nbrs: Seq<TileId>)
    ensures
        land_neighbors(levels, nbrs) == nbrs.filter(|t: TileId| levels[t.0 as int] == 0).len(),
    decreases nbrs.len(),
{
    reveal(Seq::filter);
    if nbrs.len() > 0 {
        lemma_land_neighbors_filter(levels, nbrs.drop_last());
    }
}

/// What one smoothing pass does to tile `i`, in terms of how many of its neighbours are land
/// before the pass: a land tile sinks exactly when at most one neighbour is land; a sea tile
/// fills exactly when at least all but one of its sides border land, so a sea tile with fewer
/// land neighbours stays sea whatever the majority; any other level is kept.
pub proof fn lemma_smoothing_rule(levels: Seq<i32>, adj: Seq<Seq<TileId>>, sides: Seq<usize>, i: int)
    requires
        0 <= i < levels.len(),
        i < adj.len(),
        i < sides.len(),
    ensures
        ({
            let land = adj[i].filter(|t: TileId| levels[t.0 as int] == 0).len() as int;
            let out = smoothed_level(levels, adj, sides, i);
            &&& levels[i] == 0 ==> (out == -1 <==> land <= 1) && (out == -1 || out == 0)
            &&& levels[i] == -1 ==> (out == 0 <==> land >= sides[i] - 1) && (out == -1 || out == 0)
            &&& levels[i] != 0 && levels[i] != -1 ==> out == levels[i]
        }),
{
    lemma_land_neighbors_filter(levels, adj[i]);
}

fn count_land(levels: &[i32], nbrs: &[TileId]) -> (n: usize)
    requires
        forall|k: int| 0 <= k < nbrs@.len() ==> (#[trigger] nbrs@[k]).0 < levels@.len(),
    ensures
        n == land_neighbors(levels@, nbrs@),
{
    let mut n: usize = 0;
    let mut k: usize = 0;
    while k < nbrs.len()
        invariant
            k <= nbrs@.len(),
            forall|x: int| 0 <= x < nbrs@.len() ==> (#[trigger] nbrs@[x]).0 < levels@.len(),
            n == land_neighbors(levels@, nbrs@.take(k as int)),
            n <= k,
        decreases nbrs.len() - k,
    {
        assert(nbrs@.take(k + 1).drop_last() =~= nbrs@.take(k as int));
        if levels[nbrs[k].index()] == 0 {
            n += 1;
        }
        k += 1;
    }
    assert(nbrs@.take(k as int) =~= nbrs@);
    n
}

/// One smoothing pass over a land (`0`) / sea (`-1`) map on `board`; `sides` gives each tile's
/// number of sides. Lone islets sink and lone puddles fill; see [`smoothed_level`].
pub fn smooth_coast<B: Board>(board: &B, levels: &[i32], sides: &[usize]) -> (out: Vec<i32>)
    requires
        adjacency_ok(board.adjacency()),
        levels@.len() == board.adjacency().len(),
        sides@.len() == levels@.len(),
        forall|i: int| 0 <= i < sides@.len() ==> #[trigger] sides@[i] >= 1,
    ensures
        out@ == Seq::new(levels@.len(), |i: int| smoothed_level(levels@, board.adjacency(), sides@, i)),
{
    let mut out: Vec<i32> = Vec::new();
    let mut i: usize = 0;
    while i < levels.len()
        invariant
            i <= levels@.len(),
            adjacency_ok(board.adjacency()),
            levels@.len() == board.adjacency().len(),
            sides@.len() == levels@.len(),
            forall|x: int| 0 <= x < sides@.len() ==> #[trigger] sides@[x] >= 1,
            out@ == Seq::new(i as nat, |x: int| smoothed_level(levels@, board.adjacency(), sides@, x)),
        decreases levels.len() - i,
    {
        let nbrs = board.neighbors(TileId(i as u32));
        assert(forall|k: int| 0 <= k < nbrs@.len() ==> (#[trigger] nbrs@[k]).0 < levels@.len()) by {
            assert(i as u32 as int == i);
        }
        let land = count_land(levels, nbrs);
        let s = sides[i];
        let here = levels[i];
        let next = if here == 0 && land <= 1 {
            -1
        } else if here == -1 && land >= s - 1 {
            0
        } else {
            here
        };
        out.push(next);
        assert(out@ =~= Seq::new((i + 1) as nat, |x: int| smoothed_level(levels@, board.adjacency(), sides@, x)));
        i += 1;
    }
    out
}

} // verus!
