//! Territories: connected groups of same-owner tiles, each with its capital.

use vstd::prelude::*;

use crate::board::{adjacency_ok, Board};
use crate::faction::Faction;
use crate::state::{GameState, Territory, TerritoryView, Tile};
use crate::tile::{Cover, TileId};

verus! {

/// Tile `i` exists and belongs to `f`.
pub open spec fn owned_by(tiles: Seq<Tile>, i: int, f: Faction) -> bool {
    0 <= i < tiles.len() && tiles[i].owner == Some(f)
}

/// Tile `b` is listed among the neighbours of tile `a`.
pub open spec fn adjacent(adj: Seq<Seq<TileId>>, a: int, b: int) -> bool {
    0 <= a < adj.len() && adj[a].contains(TileId(b as u32))
}

/// A walk from `p[0]` to `p.last()` through tiles of `f`, each step to a neighbour.
pub open spec fn is_walk(tiles: Seq<Tile>, adj: Seq<Seq<TileId>>, f: Faction, p: Seq<int>) -> bool {
    &&& p.len() > 0
    &&& forall|k: int| 0 <= k < p.len() ==> owned_by(tiles, #[trigger] p[k], f)
    &&& forall|k: int| 0 <= k < p.len() - 1 ==> #[trigger] adjacent(adj, p[k], p[k + 1])
}

/// `b` lies in the territory of `a`: `a` is owned, and a walk through tiles of its owner leads
/// from `a` to `b`.
pub open spec fn linked(tiles: Seq<Tile>, adj: Seq<Seq<TileId>>, a: int, b: int) -> bool {
    &&& 0 <= a < tiles.len()
    &&& tiles[a].owner is Some
    &&& exists|p: Seq<int>| #[trigger] is_walk(tiles, adj, tiles[a].owner->0, p) && p[0] == a && p.last() == b
}

/// Tile `i` is the lowest id of its territory.
pub open spec fn is_first(tiles: Seq<Tile>, adj: Seq<Seq<TileId>>, i: int) -> bool {
    &&& 0 <= i < tiles.len()
    &&& tiles[i].owner is Some
    &&& forall|j: int| 0 <= j < i ==> !#[trigger] linked(tiles, adj, j, i)
}

/// The lowest ids of the territories among the first `k` tiles, ascending.
pub open spec fn reps_upto(tiles: Seq<Tile>, adj: Seq<Seq<TileId>>, k: int) -> Seq<int>
    decreases k,
{
    if k <= 0 {
        Seq::empty()
    } else if is_first(tiles, adj, k - 1) {
        reps_upto(tiles, adj, k - 1).push(k - 1)
    } else {
        reps_upto(tiles, adj, k - 1)
    }
}

/// The members of the territory of `r` among the first `k` tiles, ascending.
pub open spec fn members_upto(tiles: Seq<Tile>, adj: Seq<Seq<TileId>>, r: int, k: int) -> Seq<TileId>
    decreases k,
{
    if k <= 0 {
        Seq::empty()
    } else if linked(tiles, adj, r, k - 1) {
        members_upto(tiles, adj, r, k - 1).push(TileId((k - 1) as u32))
    } else {
        members_upto(tiles, adj, r, k - 1)
    }
}

/// The lowest capital of the territory of `r` among the first `k` tiles.
pub open spec fn first_capital_upto(tiles: Seq<Tile>, adj: Seq<Seq<TileId>>, r: int, k: int) -> Option<TileId>
    decreases k,
{
    if k <= 0 {
        None
    } else {
        match first_capital_upto(tiles, adj, r, k - 1) {
            Some(c) => Some(c),
            None => if linked(tiles, adj, r, k - 1) && tiles[k - 1].cover == Cover::Capital {
                Some(TileId((k - 1) as u32))
            } else {
                None
            },
        }
    }
}

/// The lowest id among the first `k` tiles whose territory holds `j`.
pub open spec fn first_linked_upto(tiles: Seq<Tile>, adj: Seq<Seq<TileId>>, j: int, k: int) -> Option<int>
    decreases k,
{
    if k <= 0 {
        None
    } else {
        match first_linked_upto(tiles, adj, j, k - 1) {
            Some(i) => Some(i),
            None => if linked(tiles, adj, k - 1, j) { Some(k - 1) } else { None },
        }
    }
}

/// The territory whose lowest id is `r`: its owner, its lowest capital and its members.
pub open spec fn territory_at(tiles: Seq<Tile>, adj: Seq<Seq<TileId>>, r: int) -> TerritoryView {
    TerritoryView {
        owner: tiles[r].owner->0,
        capital: first_capital_upto(tiles, adj, r, tiles.len() as int),
        tiles: members_upto(tiles, adj, r, tiles.len() as int),
    }
}

/// Every territory, ordered by lowest id.
pub open spec fn spec_territories(tiles: Seq<Tile>, adj: Seq<Seq<TileId>>) -> Seq<TerritoryView> {
    let reps = reps_upto(tiles, adj, tiles.len() as int);
    Seq::new(reps.len(), |k: int| territory_at(tiles, adj, reps[k]))
}

/// The territory holding tile `j`, if `j` is owned.
pub open spec fn spec_territory_of(tiles: Seq<Tile>, adj: Seq<Seq<TileId>>, j: int) -> Option<TerritoryView> {
    match first_linked_upto(tiles, adj, j, tiles.len() as int) {
        Some(r) => Some(territory_at(tiles, adj, r)),
        None => None,
    }
}

/// The board fits the tiles.
pub open spec fn board_fits(tiles: Seq<Tile>, adj: Seq<Seq<TileId>>) -> bool {
    &&& adjacency_ok(adj)
    &&& adj.len() == tiles.len()
}

// ---------------------------------------------------------------------------------------------
// Walks

/// An owned tile lies in its own territory.
pub proof fn lemma_linked_refl(tiles: Seq<Tile>, adj: Seq<Seq<TileId>>, a: int)
    requires
        0 <= a < tiles.len(),
        tiles[a].owner is Some,
    ensures
        linked(tiles, adj, a, a),
{
    let p = seq![a];
    assert(is_walk(tiles, adj, tiles[a].owner->0, p));
}

/// Members of a territory are tiles of its owner.
pub proof fn lemma_linked_owner(tiles: Seq<Tile>, adj: Seq<Seq<TileId>>, a: int, b: int)
    requires
        linked(tiles, adj, a, b),
    ensures
        0 <= b < tiles.len(),
        tiles[b].owner == tiles[a].owner,
{
    let p = choose|p: Seq<int>| #[trigger] is_walk(tiles, adj, tiles[a].owner->0, p) && p[0] == a && p.last() == b;
    assert(owned_by(tiles, p[p.len() - 1], tiles[a].owner->0));
}

/// A step to a same-owner neighbour stays in the territory.
pub proof fn lemma_linked_step(tiles: Seq<Tile>, adj: Seq<Seq<TileId>>, a: int, j: int, y: int)
    requires
        linked(tiles, adj, a, j),
        adjacent(adj, j, y),
        0 <= y < tiles.len(),
        tiles[y].owner == tiles[a].owner,
    ensures
        linked(tiles, adj, a, y),
{
    let f = tiles[a].owner->0;
    let p = choose|p: Seq<int>| #[trigger] is_walk(tiles, adj, f, p) && p[0] == a && p.last() == j;
    let q = p.push(y);
    assert forall|k: int| 0 <= k < q.len() implies owned_by(tiles, #[trigger] q[k], f) by {
        if k < p.len() {
            assert(q[k] == p[k]);
        }
    }
    assert forall|k: int| 0 <= k < q.len() - 1 implies #[trigger] adjacent(adj, q[k], q[k + 1]) by {
        if k < p.len() - 1 {
            assert(q[k] == p[k] && q[k + 1] == p[k + 1]);
            assert(adjacent(adj, p[k], p[k + 1]));
        } else {
            assert(q[k] == j && q[k + 1] == y);
        }
    }
    assert(is_walk(tiles, adj, f, q));
}

/// On a usable board, territories are symmetric.
pub proof fn lemma_linked_sym(tiles: Seq<Tile>, adj: Seq<Seq<TileId>>, a: int, b: int)
    requires
        board_fits(tiles, adj),
        linked(tiles, adj, a, b),
    ensures
        linked(tiles, adj, b, a),
{
    let f = tiles[a].owner->0;
    let p = choose|p: Seq<int>| #[trigger] is_walk(tiles, adj, f, p) && p[0] == a && p.last() == b;
    let q = p.reverse();
    assert(owned_by(tiles, p[p.len() - 1], f));
    assert forall|k: int| 0 <= k < q.len() implies owned_by(tiles, #[trigger] q[k], f) by {
        assert(q[k] == p[p.len() - 1 - k]);
    }
    assert forall|k: int| 0 <= k < q.len() - 1 implies #[trigger] adjacent(adj, q[k], q[k + 1]) by {
        let i = p.len() - 2 - k;
        assert(q[k] == p[i + 1] && q[k + 1] == p[i]);
        assert(adjacent(adj, p[i], p[i + 1]));
        assert(owned_by(tiles, p[i], f));
        assert(owned_by(tiles, p[i + 1], f));
        let x = p[i];
        let z = p[i + 1];
        let kk = choose|kk: int| 0 <= kk < adj[x].len() && adj[x][kk] == TileId(z as u32);
        assert(adj[x][kk].0 as int == z);
        assert(adj[z].contains(TileId(x as u32)));
    }
    assert(is_walk(tiles, adj, f, q));
    assert(q[0] == b);
    assert(q.last() == a);
    assert(tiles[b].owner == Some(f));
}

/// Territories are transitive.
pub proof fn lemma_linked_trans(tiles: Seq<Tile>, adj: Seq<Seq<TileId>>, a: int, b: int, c: int)
    requires
        linked(tiles, adj, a, b),
        linked(tiles, adj, b, c),
    ensures
        linked(tiles, adj, a, c),
{
    lemma_linked_owner(tiles, adj, a, b);
    let f = tiles[a].owner->0;
    let p = choose|p: Seq<int>| #[trigger] is_walk(tiles, adj, f, p) && p[0] == a && p.last() == b;
    let r = choose|r: Seq<int>| #[trigger] is_walk(tiles, adj, f, r) && r[0] == b && r.last() == c;
    let q = p + r.subrange(1, r.len() as int);
    assert forall|k: int| 0 <= k < q.len() implies owned_by(tiles, #[trigger] q[k], f) by {
        if k < p.len() {
            assert(q[k] == p[k]);
        } else {
            assert(q[k] == r[k - p.len() + 1]);
        }
    }
    assert forall|k: int| 0 <= k < q.len() - 1 implies #[trigger] adjacent(adj, q[k], q[k + 1]) by {
        if k < p.len() - 1 {
            assert(q[k] == p[k] && q[k + 1] == p[k + 1]);
            assert(adjacent(adj, p[k], p[k + 1]));
        } else if k == p.len() - 1 {
            assert(q[k] == b && q[k + 1] == r[1]);
            assert(adjacent(adj, r[0], r[1]));
        } else {
            let i = k - p.len() + 1;
            assert(q[k] == r[i] && q[k + 1] == r[i + 1]);
            assert(adjacent(adj, r[i], r[i + 1]));
        }
    }
    assert(is_walk(tiles, adj, f, q));
    if r.len() == 1 {
        assert(q.last() == p.last());
    } else {
        assert(q.last() == r.last());
    }
}

// ---------------------------------------------------------------------------------------------
// The recursive enumerations

/// The lowest ids of the territories met among the first `k` tiles are below `k`, in ascending
/// order, and include every such lowest id.
pub proof fn lemma_reps_upto(tiles: Seq<Tile>, adj: Seq<Seq<TileId>>, k: int)
    requires
        0 <= k <= tiles.len(),
    ensures
        forall|x: int| 0 <= x < reps_upto(tiles, adj, k).len() ==> {
            &&& 0 <= #[trigger] reps_upto(tiles, adj, k)[x] < k
            &&& is_first(tiles, adj, reps_upto(tiles, adj, k)[x])
        },
        forall|x: int, y: int| 0 <= x < y < reps_upto(tiles, adj, k).len() ==> #[trigger] reps_upto(tiles, adj, k)[x]
            < #[trigger] reps_upto(tiles, adj, k)[y],
        forall|i: int| 0 <= i < k && is_first(tiles, adj, i) ==> reps_upto(tiles, adj, k).contains(i),
    decreases k,
{
    if k > 0 {
        lemma_reps_upto(tiles, adj, k - 1);
        let prev = reps_upto(tiles, adj, k - 1);
        let cur = reps_upto(tiles, adj, k);
        assert forall|i: int| 0 <= i < k && is_first(tiles, adj, i) implies cur.contains(i) by {
            if i < k - 1 {
                assert(prev.contains(i));
                let x = choose|x: int| 0 <= x < prev.len() && prev[x] == i;
                assert(cur[x] == prev[x]);
            } else {
                assert(cur[cur.len() - 1] == k - 1);
            }
        }
    }
}

/// The members of the territory of `r` among the first `k` tiles are exactly the tiles below
/// `k` linked to `r`.
pub proof fn lemma_members_upto(tiles: Seq<Tile>, adj: Seq<Seq<TileId>>, r: int, k: int)
    requires
        0 <= k <= tiles.len(),
        tiles.len() <= u32::MAX,
    ensures
        forall|j: int| 0 <= j < tiles.len() ==> (members_upto(tiles, adj, r, k).contains(TileId(j as u32)) <==> (j < k
            && linked(tiles, adj, r, j))),
        forall|x: int| 0 <= x < members_upto(tiles, adj, r, k).len() ==> (#[trigger] members_upto(tiles, adj, r, k)[x]).0 < k,
    decreases k,
{
    if k > 0 {
        lemma_members_upto(tiles, adj, r, k - 1);
        let prev = members_upto(tiles, adj, r, k - 1);
        let cur = members_upto(tiles, adj, r, k);
        assert forall|j: int| 0 <= j < tiles.len() implies (cur.contains(TileId(j as u32)) <==> (j < k && linked(tiles, adj, r, j))) by {
            if cur.contains(TileId(j as u32)) {
                let x = choose|x: int| 0 <= x < cur.len() && cur[x] == TileId(j as u32);
                if x < prev.len() {
                    assert(prev[x] == cur[x]);
                    assert(prev.contains(TileId(j as u32)));
                }
            }
            if j < k && linked(tiles, adj, r, j) {
                if j < k - 1 {
                    assert(prev.contains(TileId(j as u32)));
                    let x = choose|x: int| 0 <= x < prev.len() && prev[x] == TileId(j as u32);
                    assert(cur[x] == prev[x]);
                } else {
                    assert(cur[cur.len() - 1] == TileId(j as u32));
                }
            }
        }
        assert forall|x: int| 0 <= x < cur.len() implies (#[trigger] cur[x]).0 < k by {
            if x < prev.len() {
                assert(cur[x] == prev[x]);
            }
        }
    }
}

/// The first tile below `k` linked to `j` is linked to it and no earlier one is; when there is
/// none, no tile below `k` is.
pub proof fn lemma_first_linked_upto(tiles: Seq<Tile>, adj: Seq<Seq<TileId>>, j: int, k: int)
    requires
        0 <= k,
    ensures
        first_linked_upto(tiles, adj, j, k) matches Some(i) ==> 0 <= i < k && linked(tiles, adj, i, j)
            && forall|m: int| 0 <= m < i ==> !#[trigger] linked(tiles, adj, m, j),
        first_linked_upto(tiles, adj, j, k) is None ==> forall|m: int| 0 <= m < k ==> !#[trigger] linked(tiles, adj, m, j),
    decreases k,
{
    if k > 0 {
        lemma_first_linked_upto(tiles, adj, j, k - 1);
    }
}

// ---------------------------------------------------------------------------------------------
// The flood fill

/// Tiles labelled `k` are closed under stepping to same-owner neighbours.
spec fn closed_at(tiles: Seq<Tile>, adj: Seq<Seq<TileId>>, label: Seq<Option<usize>>, k: usize, f: Faction, j: int) -> bool {
    forall|y: int| #[trigger] adjacent(adj, j, y) && owned_by(tiles, y, f) ==> label[y] == Some(k)
}

/// Along any walk of `f` from a tile labelled `k`, where every labelled tile is closed, every
/// tile is labelled `k`.
proof fn lemma_walk_stays_labelled(
    tiles: Seq<Tile>,
    adj: Seq<Seq<TileId>>,
    label: Seq<Option<usize>>,
    k: usize,
    f: Faction,
    p: Seq<int>,
)
    requires
        is_walk(tiles, adj, f, p),
        label[p[0]] == Some(k),
        forall|j: int| 0 <= j < tiles.len() && #[trigger] label[j] == Some(k) ==> closed_at(tiles, adj, label, k, f, j),
    ensures
        label[p.last()] == Some(k),
    decreases p.len(),
{
    if p.len() > 1 {
        let q = p.drop_last();
        assert forall|i: int| 0 <= i < q.len() implies owned_by(tiles, #[trigger] q[i], f) by {
            assert(q[i] == p[i]);
        }
        assert forall|i: int| 0 <= i < q.len() - 1 implies #[trigger] adjacent(adj, q[i], q[i + 1]) by {
            assert(q[i] == p[i] && q[i + 1] == p[i + 1]);
            assert(adjacent(adj, p[i], p[i + 1]));
        }
        lemma_walk_stays_labelled(tiles, adj, label, k, f, q);
        let j = q.last();
        assert(j == p[p.len() - 2]);
        let kk = p.len() - 2;
        assert(adjacent(adj, p[kk], p[kk + 1]));
        assert(owned_by(tiles, j, f));
        assert(closed_at(tiles, adj, label, k, f, j));
        assert(owned_by(tiles, p[p.len() - 1], f));
    }
}

/// Labels every tile of the territory of `s` with `k`: a depth-first flood fill over same-owner
/// neighbours.
fn fill<B: Board>(
    state: &GameState,
    board: &B,
    label: &mut Vec<Option<usize>>,
    s: usize,
    k: usize,
    f: Faction,
)
    requires
        board_fits(state.tiles@, board.adjacency()),
        old(label)@.len() == state.tiles@.len(),
        s < state.tiles@.len(),
        state.tiles@[s as int].owner == Some(f),
        forall|j: int| 0 <= j < state.tiles@.len() ==> old(label)@[j] != Some(k),
        forall|j: int| #![trigger old(label)@[j]] 0 <= j < state.tiles@.len() && linked(state.tiles@, board.adjacency(), s as int, j)
            ==> old(label)@[j] is None,
    ensures
        final(label)@.len() == old(label)@.len(),
        forall|j: int| 0 <= j < state.tiles@.len() ==> (#[trigger] final(label)@[j] == Some(k) <==> linked(
            state.tiles@,
            board.adjacency(),
            s as int,
            j,
        )),
        forall|j: int| 0 <= j < state.tiles@.len() && #[trigger] final(label)@[j] != Some(k) ==> final(label)@[j]
            == old(label)@[j],
{
    let ghost tiles = state.tiles@;
    let ghost adj = board.adjacency();
    let ghost old_label = label@;
    let n = state.tiles.len();
    proof {
        lemma_linked_refl(tiles, adj, s as int);
    }
    label.set(s, Some(k));
    let mut stack: Vec<usize> = Vec::new();
    stack.push(s);
    proof {
        assert(stack@[0] == s);
        assert forall|j: int| 0 <= j < n && #[trigger] label@[j] == Some(k) && !stack@.contains(j as usize) implies closed_at(
            tiles,
            adj,
            label@,
            k,
            f,
            j,
        ) by {
            if j != s as int {
                assert(label@[j] == old_label[j]);
            }
        }
        lemma_count_labelled_bounds(label@, k, n as int);
    }
    while stack.len() > 0
        invariant
            n == tiles.len(),
            tiles == state.tiles@,
            adj == board.adjacency(),
            board_fits(tiles, adj),
            s < n,
            tiles[s as int].owner == Some(f),
            label@.len() == n,
            label@[s as int] == Some(k),
            forall|j: int| 0 <= j < n ==> old_label[j] != Some(k),
            forall|j: int| #![trigger old_label[j]] 0 <= j < n && linked(tiles, adj, s as int, j) ==> old_label[j] is None,
            forall|j: int| 0 <= j < n && #[trigger] label@[j] == Some(k) ==> linked(tiles, adj, s as int, j),
            forall|j: int| 0 <= j < n && #[trigger] label@[j] != Some(k) ==> label@[j] == old_label[j],
            forall|m: int| 0 <= m < stack@.len() ==> #[trigger] stack@[m] < n && label@[stack@[m] as int] == Some(k),
            stack@.no_duplicates(),
            forall|j: int| 0 <= j < n && #[trigger] label@[j] == Some(k) && !stack@.contains(j as usize) ==> closed_at(
                tiles,
                adj,
                label@,
                k,
                f,
                j,
            ),
        decreases n - count_labelled(label@, k, n as int), stack@.len(),
    {
        let ghost full = stack@;
        let id = stack.pop().unwrap();
        proof {
            assert(full =~= stack@.push(id));
            assert(!stack@.contains(id)) by {
                if stack@.contains(id) {
                    let m = choose|m: int| 0 <= m < stack@.len() && stack@[m] == id;
                    assert(full[m] == id);
                    assert(full[full.len() - 1] == id);
                }
            }
            assert forall|m: int| 0 <= m < stack@.len() implies #[trigger] stack@[m] < n && label@[stack@[m] as int] == Some(k) by {
                assert(stack@[m] == full[m]);
            }
            assert(stack@.no_duplicates()) by {
                assert forall|a: int, b: int| 0 <= a < b < stack@.len() implies stack@[a] != stack@[b] by {
                    assert(stack@[a] == full[a] && stack@[b] == full[b]);
                }
            }
            assert(id == full[full.len() - 1]);
            lemma_count_labelled_bounds(label@, k, n as int);
        }
        let ghost c0 = count_labelled(label@, k, n as int);
        let ghost l0 = stack@.len();
        let nb = board.neighbors(TileId(id as u32));
        let mut q: usize = 0;
        while q < nb.len()
            invariant
                // everything from the outer loop
                n == tiles.len(),
                tiles == state.tiles@,
                adj == board.adjacency(),
                board_fits(tiles, adj),
                s < n,
                tiles[s as int].owner == Some(f),
                label@.len() == n,
                label@[s as int] == Some(k),
                forall|j: int| 0 <= j < n ==> old_label[j] != Some(k),
                forall|j: int| #![trigger old_label[j]] 0 <= j < n && linked(tiles, adj, s as int, j) ==> old_label[j] is None,
                forall|j: int| 0 <= j < n && #[trigger] label@[j] == Some(k) ==> linked(tiles, adj, s as int, j),
                forall|j: int| 0 <= j < n && #[trigger] label@[j] != Some(k) ==> label@[j] == old_label[j],
                forall|m: int| 0 <= m < stack@.len() ==> #[trigger] stack@[m] < n && label@[stack@[m] as int] == Some(k),
                stack@.no_duplicates(),
                // the tile being processed
                id < n,
                label@[id as int] == Some(k),
                !stack@.contains(id),
                nb@ == adj[id as int],
                q <= nb@.len(),
                forall|j: int| 0 <= j < n && j != id && #[trigger] label@[j] == Some(k) && !stack@.contains(j as usize) ==> closed_at(
                    tiles,
                    adj,
                    label@,
                    k,
                    f,
                    j,
                ),
                forall|x: int| 0 <= x < q && owned_by(tiles, (#[trigger] nb@[x]).0 as int, f) ==> label@[nb@[x].0 as int] == Some(k),
                count_labelled(label@, k, n as int) <= n,
                count_labelled(label@, k, n as int) == c0 + (stack@.len() - l0),
                stack@.len() >= l0,
            decreases nb@.len() - q,
        {
            let y = nb[q];
            proof {
                assert(adj[id as int][q as int] == y);
                assert(y.0 < n);
            }
            let yi = y.index();
            if label[yi].is_none() && state.tiles[yi].owner == Some(f) {
                proof {
                    assert(adjacent(adj, id as int, yi as int)) by {
                        assert(adj[id as int][q as int] == TileId(yi as u32));
                    }
                    lemma_linked_step(tiles, adj, s as int, id as int, yi as int);
                    lemma_count_labelled_grows(label@, k, n as int, yi as int);
                }
                let ghost before = label@;
                label.set(yi, Some(k));
                let ghost before_stack = stack@;
                stack.push(yi);
                proof {
                    assert(stack@[stack@.len() - 1] == yi);
                    assert(stack@.contains(yi));
                    assert forall|j: int| 0 <= j < n && j != id && #[trigger] label@[j] == Some(k) && !stack@.contains(j as usize) implies closed_at(
                        tiles,
                        adj,
                        label@,
                        k,
                        f,
                        j,
                    ) by {
                        assert(j != yi);
                        assert(!before_stack.contains(j as usize)) by {
                            if before_stack.contains(j as usize) {
                                let m = choose|m: int| 0 <= m < before_stack.len() && before_stack[m] == j as usize;
                                assert(stack@[m] == j as usize);
                            }
                        }
                        assert(before[j] == Some(k));
                        assert(closed_at(tiles, adj, before, k, f, j));
                        assert forall|z: int| #[trigger] adjacent(adj, j, z) && owned_by(tiles, z, f) implies label@[z] == Some(k) by {
                            assert(before[z] == Some(k));
                        }
                    }
                    assert(stack@.no_duplicates()) by {
                        assert(!before_stack.contains(yi)) by {
                            if before_stack.contains(yi) {
                                let m = choose|m: int| 0 <= m < before_stack.len() && before_stack[m] == yi;
                                assert(before[yi as int] == Some(k));
                            }
                        }
                        assert forall|a: int, b: int| 0 <= a < b < stack@.len() implies stack@[a] != stack@[b] by {
                            if b == stack@.len() - 1 {
                                assert(stack@[a] == before_stack[a]);
                            } else {
                                assert(stack@[a] == before_stack[a]);
                                assert(stack@[b] == before_stack[b]);
                            }
                        }
                    }
                    assert(!stack@.contains(id)) by {
                        if stack@.contains(id) {
                            let m = choose|m: int| 0 <= m < stack@.len() && stack@[m] == id;
                            if m < before_stack.len() {
                                assert(before_stack[m] == id);
                            }
                        }
                    }
                    assert forall|m: int| 0 <= m < stack@.len() implies #[trigger] stack@[m] < n && label@[stack@[m] as int] == Some(k) by {
                        if m < before_stack.len() {
                            assert(stack@[m] == before_stack[m]);
                        }
                    }
                }
            } else {
                proof {
                    if state.tiles@[yi as int].owner == Some(f) {
                        // already labelled: by the step it is in the territory, and old labels
                        // are outside it, so it carries `k`
                        assert(adjacent(adj, id as int, yi as int)) by {
                            assert(adj[id as int][q as int] == TileId(yi as u32));
                        }
                        lemma_linked_step(tiles, adj, s as int, id as int, yi as int);
                        if label@[yi as int] != Some(k) {
                            assert(label@[yi as int] == old_label[yi as int]);
                        }
                    }
                }
            }
            q += 1;
        }
        proof {
            assert(closed_at(tiles, adj, label@, k, f, id as int)) by {
                assert forall|z: int| #[trigger] adjacent(adj, id as int, z) && owned_by(tiles, z, f) implies label@[z] == Some(k) by {
                    let x = choose|x: int| 0 <= x < adj[id as int].len() && adj[id as int][x] == TileId(z as u32);
                    assert(nb@[x].0 as int == z);
                }
            }
        }
    }
    proof {
        assert forall|j: int| 0 <= j < n implies (#[trigger] label@[j] == Some(k) <==> linked(tiles, adj, s as int, j)) by {
            if linked(tiles, adj, s as int, j) {
                let p = choose|p: Seq<int>| #[trigger] is_walk(tiles, adj, f, p) && p[0] == s as int && p.last() == j;
                assert forall|jj: int| 0 <= jj < tiles.len() && #[trigger] label@[jj] == Some(k) implies closed_at(tiles, adj, label@, k, f, jj) by {
                    assert(!stack@.contains(jj as usize));
                }
                lemma_walk_stays_labelled(tiles, adj, label@, k, f, p);
            }
        }
    }
}

/// How many of the first `n` labels are `k`.
spec fn count_labelled(label: Seq<Option<usize>>, k: usize, n: int) -> int
    decreases n,
{
    if n <= 0 {
        0
    } else {
        count_labelled(label, k, n - 1) + if label[n - 1] == Some(k) { 1int } else { 0int }
    }
}

proof fn lemma_count_labelled_bounds(label: Seq<Option<usize>>, k: usize, n: int)
    requires
        0 <= n,
    ensures
        0 <= count_labelled(label, k, n) <= n,
    decreases n,
{
    if n > 0 {
        lemma_count_labelled_bounds(label, k, n - 1);
    }
}

/// Labelling one more tile `k` raises the count by one.
proof fn lemma_count_labelled_grows(label: Seq<Option<usize>>, k: usize, n: int, y: int)
    requires
        0 <= y < n <= label.len(),
        label[y] != Some(k),
    ensures
        count_labelled(label.update(y, Some(k)), k, n) == count_labelled(label, k, n) + 1,
        count_labelled(label.update(y, Some(k)), k, n) <= n,
    decreases n,
{
    lemma_count_labelled_bounds(label.update(y, Some(k)), k, n);
    if n - 1 > y {
        lemma_count_labelled_grows(label, k, n - 1, y);
    } else {
        lemma_count_labelled_same(label, label.update(y, Some(k)), k, n - 1);
    }
}

proof fn lemma_count_labelled_same(a: Seq<Option<usize>>, b: Seq<Option<usize>>, k: usize, n: int)
    requires
        0 <= n <= a.len(),
        n <= b.len(),
        forall|j: int| 0 <= j < n ==> a[j] == b[j],
    ensures
        count_labelled(a, k, n) == count_labelled(b, k, n),
    decreases n,
{
    if n > 0 {
        lemma_count_labelled_same(a, b, k, n - 1);
    }
}


/// Labels every owned tile with the index of its territory, in order of lowest id; returns the
/// labels and the lowest id and owner of each territory.
fn label_territories<B: Board>(state: &GameState, board: &B) -> (r: (Vec<Option<usize>>, Vec<usize>, Vec<Faction>))
    requires
        board_fits(state.tiles@, board.adjacency()),
    ensures
        ({
            let (label, reps, owners) = r;
            let tiles = state.tiles@;
            let adj = board.adjacency();
            &&& label@.len() == tiles.len()
            &&& reps@.len() == owners@.len()
            &&& reps@.len() == reps_upto(tiles, adj, tiles.len() as int).len()
            &&& forall|x: int| 0 <= x < reps@.len() ==> #[trigger] reps@[x] as int == reps_upto(
                tiles,
                adj,
                tiles.len() as int,
            )[x]
            &&& forall|x: int| 0 <= x < reps@.len() ==> tiles[reps@[x] as int].owner == Some(#[trigger] owners@[x])
            &&& forall|j: int, x: int| 0 <= j < tiles.len() && 0 <= x < reps@.len() ==> (#[trigger] label@[j] == Some(
                x as usize,
            ) <==> #[trigger] linked(tiles, adj, reps@[x] as int, j))
            &&& forall|j: int| 0 <= j < tiles.len() ==> (#[trigger] label@[j] matches Some(x) ==> x < reps@.len())
        }),
{
    let ghost tiles = state.tiles@;
    let ghost adj = board.adjacency();
    let n = state.tiles.len();
    let mut label: Vec<Option<usize>> = Vec::new();
    let mut i: usize = 0;
    while i < n
        invariant
            i <= n,
            label@.len() == i,
            forall|j: int| 0 <= j < i ==> #[trigger] label@[j] is None,
        decreases n - i,
    {
        label.push(None);
        i += 1;
    }
    let mut reps: Vec<usize> = Vec::new();
    let mut owners: Vec<Faction> = Vec::new();
    let mut start: usize = 0;
    while start < n
        invariant
            n == tiles.len(),
            tiles == state.tiles@,
            adj == board.adjacency(),
            board_fits(tiles, adj),
            start <= n,
            label@.len() == n,
            reps@.len() == owners@.len(),
            reps@.len() == reps_upto(tiles, adj, start as int).len(),
            forall|x: int| 0 <= x < reps@.len() ==> #[trigger] reps@[x] as int == reps_upto(tiles, adj, start as int)[x],
            forall|x: int| 0 <= x < reps@.len() ==> tiles[reps@[x] as int].owner == Some(#[trigger] owners@[x]),
            forall|x: int| 0 <= x < reps@.len() ==> #[trigger] reps@[x] < start,
            forall|j: int| 0 <= j < n ==> (#[trigger] label@[j] is Some <==> exists|i: int| 0 <= i < start && #[trigger] linked(tiles, adj, i, j)),
            forall|j: int| 0 <= j < n ==> (#[trigger] label@[j] matches Some(x) ==> x < reps@.len() && linked(tiles, adj, reps@[x as int] as int, j)),
        decreases n - start,
    {
        proof {
            lemma_reps_upto(tiles, adj, start as int);
        }
        match state.tiles[start].owner {
            None => {
                proof {
                    assert(!is_first(tiles, adj, start as int));
                    assert forall|j: int| 0 <= j < n implies (#[trigger] label@[j] is Some <==> exists|i: int| 0 <= i < start + 1 && #[trigger] linked(tiles, adj, i, j)) by {
                        if exists|i: int| 0 <= i < start + 1 && #[trigger] linked(tiles, adj, i, j) {
                            let i = choose|i: int| 0 <= i < start + 1 && #[trigger] linked(tiles, adj, i, j);
                            assert(i != start as int);
                        }
                    }
                }
            },
            Some(f) => {
                if label[start].is_some() {
                    proof {
                        let i = choose|i: int| 0 <= i < start && #[trigger] linked(tiles, adj, i, start as int);
                        assert(!is_first(tiles, adj, start as int));
                        assert forall|j: int| 0 <= j < n implies (#[trigger] label@[j] is Some <==> exists|i: int| 0 <= i < start + 1 && #[trigger] linked(tiles, adj, i, j)) by {
                            if linked(tiles, adj, start as int, j) {
                                lemma_linked_trans(tiles, adj, i, start as int, j);
                            }
                        }
                    }
                } else {
                    let k = reps.len();
                    proof {
                        assert forall|j: int| 0 <= j < start implies !#[trigger] linked(tiles, adj, j, start as int) by {}
                        assert(is_first(tiles, adj, start as int));
                        assert forall|j: int| #![trigger label@[j]] 0 <= j < n && linked(tiles, adj, start as int, j) implies label@[j] is None by {
                            if label@[j] is Some {
                                let x = label@[j]->0;
                                let r = reps@[x as int] as int;
                                lemma_linked_sym(tiles, adj, start as int, j);
                                lemma_linked_trans(tiles, adj, r, j, start as int);
                            }
                        }
                    }
                    let ghost before = label@;
                    let ghost reps0 = reps@;
                    let ghost owners0 = owners@;
                    fill(state, board, &mut label, start, k, f);
                    reps.push(start);
                    owners.push(f);
                    proof {
                        assert forall|x: int| 0 <= x < reps@.len() implies #[trigger] reps@[x] as int == reps_upto(tiles, adj, start + 1)[x] by {
                            if x < reps@.len() - 1 {
                                assert(reps@[x] == reps0[x]);
                            }
                        }
                        assert forall|j: int| 0 <= j < n implies (#[trigger] label@[j] is Some <==> exists|i: int| 0 <= i < start + 1 && #[trigger] linked(tiles, adj, i, j)) by {
                            if label@[j] == Some(k) {
                                assert(linked(tiles, adj, start as int, j));
                            } else {
                                assert(label@[j] == before[j]);
                            }
                            if exists|i: int| 0 <= i < start + 1 && #[trigger] linked(tiles, adj, i, j) {
                                let i = choose|i: int| 0 <= i < start + 1 && #[trigger] linked(tiles, adj, i, j);
                                if i == start as int {
                                    assert(label@[j] == Some(k));
                                } else if label@[j] != Some(k) {
                                    assert(label@[j] == before[j]);
                                }
                            }
                        }
                        assert forall|j: int| 0 <= j < n implies (#[trigger] label@[j] matches Some(x) ==> x < reps@.len() && linked(tiles, adj, reps@[x as int] as int, j)) by {
                            if label@[j] is Some {
                                if label@[j] == Some(k) {
                                    assert(reps@[k as int] == start);
                                } else {
                                    assert(label@[j] == before[j]);
                                    let x = label@[j]->0;
                                    assert(reps@[x as int] == reps0[x as int]);
                                }
                            }
                        }
                        assert forall|x: int| 0 <= x < reps@.len() implies tiles[reps@[x] as int].owner == Some(#[trigger] owners@[x]) by {
                            if x < reps@.len() - 1 {
                                assert(reps@[x] == reps0[x]);
                                assert(owners@[x] == owners0[x]);
                            }
                        }
                    }
                }
            },
        }
        start += 1;
    }
    let rl = reps.len();
    proof {
        assert(rl == reps@.len());
        lemma_reps_upto(tiles, adj, n as int);
        assert forall|j: int, x: int| 0 <= j < tiles.len() && 0 <= x < reps@.len() implies (#[trigger] label@[j] == Some(
            x as usize,
        ) <==> #[trigger] linked(tiles, adj, reps@[x] as int, j)) by {
            if label@[j] == Some(x as usize) {
                assert(0 <= j < n);
                assert(label@[j] matches Some(x2) ==> x2 < reps@.len() && linked(tiles, adj, reps@[x2 as int] as int, j));
                assert((x as usize) as int == x);
                assert(linked(tiles, adj, reps@[x] as int, j));
            }
            if linked(tiles, adj, reps@[x] as int, j) {
                assert(reps@[x] < n);
                assert(exists|i: int| 0 <= i < n && #[trigger] linked(tiles, adj, i, j));
                assert(label@[j] is Some);
                let y = label@[j]->0;
                assert(y < reps@.len());
                if y != x as usize {
                    let a = reps@[x] as int;
                    let b = reps@[y as int] as int;
                    lemma_linked_sym(tiles, adj, b, j);
                    lemma_linked_trans(tiles, adj, a, j, b);
                    lemma_linked_sym(tiles, adj, a, b);
                    let rs = reps_upto(tiles, adj, n as int);
                    assert(rs[x] == a && rs[y as int] == b);
                    if x < y as int {
                        assert(a < b);
                        assert(is_first(tiles, adj, b));
                        assert(!linked(tiles, adj, a, b));
                    } else {
                        assert(b < a);
                        assert(is_first(tiles, adj, a));
                        assert(!linked(tiles, adj, b, a));
                    }
                }
            }
        }
    }
    (label, reps, owners)
}

/// Connected same-owner components over `board`, each with its capital if it has one, in order
/// of lowest id; members are in ascending order.
pub fn territories<B: Board>(state: &GameState, board: &B) -> (out: Vec<Territory>)
    requires
        board_fits(state.tiles@, board.adjacency()),
    ensures
        out@.len() == spec_territories(state.tiles@, board.adjacency()).len(),
        forall|x: int| 0 <= x < out@.len() ==> (#[trigger] out@[x])@ == spec_territories(state.tiles@, board.adjacency())[x],
{
    let ghost tiles = state.tiles@;
    let ghost adj = board.adjacency();
    let n = state.tiles.len();
    let (label, reps, owners) = label_territories(state, board);
    let ghost rs = reps_upto(tiles, adj, n as int);
    let mut out: Vec<Territory> = Vec::new();
    let mut x: usize = 0;
    while x < reps.len()
        invariant
            x <= reps@.len(),
            reps@.len() == owners@.len(),
            out@.len() == x,
            forall|y: int| 0 <= y < x ==> (#[trigger] out@[y]).owner == owners@[y] && out@[y].capital is None
                && out@[y].tiles@ == Seq::<TileId>::empty(),
        decreases reps.len() - x,
    {
        out.push(Territory { owner: owners[x], capital: None, tiles: Vec::new() });
        x += 1;
    }
    let rl = reps.len();
    let mut j: usize = 0;
    while j < n
        invariant
            rl == reps@.len(),
            n == tiles.len(),
            tiles == state.tiles@,
            adj == board.adjacency(),
            tiles.len() <= u32::MAX,
            j <= n,
            label@.len() == n,
            out@.len() == reps@.len(),
            reps@.len() == owners@.len(),
            reps@.len() == rs.len(),
            rs == reps_upto(tiles, adj, n as int),
            forall|y: int| 0 <= y < reps@.len() ==> #[trigger] reps@[y] as int == rs[y],
            forall|y: int| 0 <= y < reps@.len() ==> tiles[reps@[y] as int].owner == Some(#[trigger] owners@[y]),
            forall|i: int, y: int| 0 <= i < tiles.len() && 0 <= y < reps@.len() ==> (#[trigger] label@[i] == Some(
                y as usize,
            ) <==> #[trigger] linked(tiles, adj, reps@[y] as int, i)),
            forall|i: int| 0 <= i < tiles.len() ==> (#[trigger] label@[i] matches Some(y) ==> y < reps@.len()),
            forall|y: int| 0 <= y < out@.len() ==> {
                &&& (#[trigger] out@[y]).owner == owners@[y]
                &&& out@[y].tiles@ == members_upto(tiles, adj, reps@[y] as int, j as int)
                &&& out@[y].capital == first_capital_upto(tiles, adj, reps@[y] as int, j as int)
            },
        decreases n - j,
    {
        match label[j] {
            Some(y) => {
                let ghost before = out@;
                out[y].tiles.push(TileId(j as u32));
                if out[y].capital.is_none() && state.tiles[j].cover == Cover::Capital {
                    out[y].capital = Some(TileId(j as u32));
                }
                proof {
                    assert forall|z: int| 0 <= z < out@.len() implies {
                        &&& (#[trigger] out@[z]).owner == owners@[z]
                        &&& out@[z].tiles@ == members_upto(tiles, adj, reps@[z] as int, j + 1)
                        &&& out@[z].capital == first_capital_upto(tiles, adj, reps@[z] as int, j + 1)
                    } by {
                        if z == y as int {
                            assert(linked(tiles, adj, reps@[z] as int, j as int));
                        } else {
                            assert(out@[z] == before[z]);
                            assert((z as usize) as int == z);
                            assert(label@[j as int] != Some(z as usize));
                            assert(!linked(tiles, adj, reps@[z] as int, j as int));
                        }
                    }
                }
            },
            None => {
                proof {
                    assert forall|z: int| 0 <= z < out@.len() implies {
                        &&& (#[trigger] out@[z]).owner == owners@[z]
                        &&& out@[z].tiles@ == members_upto(tiles, adj, reps@[z] as int, j + 1)
                        &&& out@[z].capital == first_capital_upto(tiles, adj, reps@[z] as int, j + 1)
                    } by {
                        assert(label@[j as int] != Some(z as usize));
                        assert(!linked(tiles, adj, reps@[z] as int, j as int));
                    }
                }
            },
        }
        j += 1;
    }
    proof {
        assert forall|y: int| 0 <= y < out@.len() implies (#[trigger] out@[y])@ == spec_territories(tiles, adj)[y] by {
            assert(owners@[y] == tiles[rs[y]].owner->0);
        }
    }
    out
}

/// `true` when `id` is one of `ids`.
fn holds_id(ids: &Vec<TileId>, id: TileId) -> (b: bool)
    ensures
        b == ids@.contains(id),
{
    let mut i: usize = 0;
    while i < ids.len()
        invariant
            i <= ids@.len(),
            forall|k: int| 0 <= k < i ==> ids@[k] != id,
        decreases ids.len() - i,
    {
        if ids[i] == id {
            return true;
        }
        i += 1;
    }
    false
}

/// The territory containing `id`, if the tile is owned.
pub fn territory_of<B: Board>(state: &GameState, board: &B, id: TileId) -> (t: Option<Territory>)
    requires
        board_fits(state.tiles@, board.adjacency()),
    ensures
        match t {
            Some(t) => spec_territory_of(state.tiles@, board.adjacency(), id.0 as int) == Some(t@),
            None => spec_territory_of(state.tiles@, board.adjacency(), id.0 as int) is None,
        },
{
    let ghost tiles = state.tiles@;
    let ghost adj = board.adjacency();
    let ghost n = tiles.len() as int;
    let all = territories(state, board);
    let ghost rs = reps_upto(tiles, adj, n);
    proof {
        lemma_reps_upto(tiles, adj, n);
        lemma_first_linked_upto(tiles, adj, id.0 as int, n);
    }
    let mut x: usize = 0;
    while x < all.len()
        invariant
            x <= all@.len(),
            all@.len() == rs.len(),
            rs == reps_upto(tiles, adj, n),
            tiles == state.tiles@,
            adj == board.adjacency(),
            n == tiles.len(),
            board_fits(tiles, adj),
            forall|y: int| 0 <= y < all@.len() ==> (#[trigger] all@[y])@ == spec_territories(tiles, adj)[y],
            forall|y: int| 0 <= y < x ==> !linked(tiles, adj, #[trigger] rs[y], id.0 as int),
        decreases all.len() - x,
    {
        let found = holds_id(&all[x].tiles, id);
        proof {
            let r = rs[x as int];
            assert(all@[x as int]@ == territory_at(tiles, adj, r));
            lemma_members_upto(tiles, adj, r, n);
            if (id.0 as int) < n {
                assert(found == linked(tiles, adj, r, id.0 as int));
            } else {
                if found {
                    let m = choose|m: int| 0 <= m < all@[x as int].tiles@.len() && all@[x as int].tiles@[m] == id;
                    assert(all@[x as int].tiles@[m].0 < n);
                }
                if linked(tiles, adj, r, id.0 as int) {
                    lemma_linked_owner(tiles, adj, r, id.0 as int);
                }
            }
        }
        if found {
            proof {
                let r = rs[x as int];
                lemma_reps_upto(tiles, adj, n);
                lemma_first_linked_upto(tiles, adj, id.0 as int, n);
                // r is the lowest tile linked to id
                match first_linked_upto(tiles, adj, id.0 as int, n) {
                    Some(m) => {
                        if m < r {
                            lemma_linked_sym(tiles, adj, r, id.0 as int);
                            lemma_linked_trans(tiles, adj, m, id.0 as int, r);
                            assert(is_first(tiles, adj, r));
                        } else if m > r {
                            assert(!linked(tiles, adj, r, id.0 as int));
                        }
                    },
                    None => {
                        assert(!linked(tiles, adj, r, id.0 as int));
                    },
                }
            }
            return Some(all[x].clone_territory());
        }
        x += 1;
    }
    proof {
        if first_linked_upto(tiles, adj, id.0 as int, n) is Some {
            let m = first_linked_upto(tiles, adj, id.0 as int, n)->0;
            // m's territory has a lowest id, which is some rs[y], and it is linked to id too
            lemma_first_linked_upto(tiles, adj, m, n);
            lemma_linked_refl(tiles, adj, m);
            let r = first_linked_upto(tiles, adj, m, n)->0;
            assert forall|z: int| 0 <= z < r implies !#[trigger] linked(tiles, adj, z, r) by {
                if linked(tiles, adj, z, r) {
                    lemma_linked_trans(tiles, adj, z, r, m);
                }
            }
            assert(is_first(tiles, adj, r));
            assert(rs.contains(r));
            let y = choose|y: int| 0 <= y < rs.len() && rs[y] == r;
            lemma_linked_trans(tiles, adj, r, m, id.0 as int);
            assert(!linked(tiles, adj, rs[y], id.0 as int));
        }
    }
    None
}

impl Territory {
    /// A copy of the territory.
    pub fn clone_territory(&self) -> (t: Territory)
        ensures
            t@ == self@,
    {
        let tiles = self.tiles.clone();
        assert(tiles@ =~= self.tiles@);
        Territory { owner: self.owner, capital: self.capital, tiles }
    }
}


/// At most one territory per tile.
pub proof fn lemma_reps_upto_len(tiles: Seq<Tile>, adj: Seq<Seq<TileId>>, k: int)
    requires
        0 <= k,
    ensures
        reps_upto(tiles, adj, k).len() <= k,
    decreases k,
{
    if k > 0 {
        lemma_reps_upto_len(tiles, adj, k - 1);
    }
}

/// A territory has at most as many members as there are tiles.
pub proof fn lemma_members_upto_len(tiles: Seq<Tile>, adj: Seq<Seq<TileId>>, r: int, k: int)
    requires
        0 <= k,
    ensures
        members_upto(tiles, adj, r, k).len() <= k,
    decreases k,
{
    if k > 0 {
        lemma_members_upto_len(tiles, adj, r, k - 1);
    }
}

/// Territories partition the owned tiles: an owned tile lies in exactly one territory, the one
/// `spec_territory_of` gives for it, and an unowned tile lies in none.
pub proof fn lemma_territories_partition(tiles: Seq<Tile>, adj: Seq<Seq<TileId>>, j: int)
    requires
        board_fits(tiles, adj),
        0 <= j < tiles.len(),
    ensures
        tiles[j].owner is Some ==> exists|x: int|
            0 <= x < spec_territories(tiles, adj).len() && (#[trigger] spec_territories(tiles, adj)[x]).tiles.contains(
                TileId(j as u32),
            ) && spec_territory_of(tiles, adj, j) == Some(spec_territories(tiles, adj)[x]),
        forall|x: int, y: int|
            0 <= x < spec_territories(tiles, adj).len() && 0 <= y < spec_territories(tiles, adj).len()
                && (#[trigger] spec_territories(tiles, adj)[x]).tiles.contains(TileId(j as u32))
                && (#[trigger] spec_territories(tiles, adj)[y]).tiles.contains(TileId(j as u32)) ==> x == y,
        tiles[j].owner is None ==> spec_territory_of(tiles, adj, j) is None && forall|x: int|
            0 <= x < spec_territories(tiles, adj).len() ==> !(#[trigger] spec_territories(tiles, adj)[x]).tiles.contains(
                TileId(j as u32),
            ),
{
    let n = tiles.len() as int;
    let ts = spec_territories(tiles, adj);
    let reps = reps_upto(tiles, adj, n);
    lemma_reps_upto(tiles, adj, n);
    assert forall|x: int| 0 <= x < ts.len() implies ((#[trigger] ts[x]).tiles.contains(TileId(j as u32)) <==> linked(
        tiles,
        adj,
        reps[x],
        j,
    )) by {
        lemma_members_upto(tiles, adj, reps[x], n);
    }
    lemma_first_linked_upto(tiles, adj, j, n);
    if tiles[j].owner is Some {
        lemma_linked_refl(tiles, adj, j);
        let i = first_linked_upto(tiles, adj, j, n)->0;
        assert forall|m: int| 0 <= m < i implies !#[trigger] linked(tiles, adj, m, i) by {
            if linked(tiles, adj, m, i) {
                lemma_linked_trans(tiles, adj, m, i, j);
            }
        }
        assert(is_first(tiles, adj, i));
        let x = choose|x: int| 0 <= x < reps.len() && reps[x] == i;
        assert(ts[x].tiles.contains(TileId(j as u32)));
    } else {
        assert forall|x: int| 0 <= x < ts.len() implies !(#[trigger] ts[x]).tiles.contains(TileId(j as u32)) by {
            if linked(tiles, adj, reps[x], j) {
                lemma_linked_owner(tiles, adj, reps[x], j);
            }
        }
        if first_linked_upto(tiles, adj, j, n) is Some {
            lemma_linked_owner(tiles, adj, first_linked_upto(tiles, adj, j, n)->0, j);
        }
    }
    assert forall|x: int, y: int|
        0 <= x < ts.len() && 0 <= y < ts.len() && (#[trigger] ts[x]).tiles.contains(TileId(j as u32))
            && (#[trigger] ts[y]).tiles.contains(TileId(j as u32)) implies x == y by {
        let rx = reps[x];
        let ry = reps[y];
        lemma_linked_sym(tiles, adj, ry, j);
        lemma_linked_trans(tiles, adj, rx, j, ry);
        lemma_linked_sym(tiles, adj, rx, j);
        lemma_linked_trans(tiles, adj, ry, j, rx);
        if x < y {
            assert(rx < ry);
        } else if y < x {
            assert(ry < rx);
        }
    }
}

/// The members of the territory of `r` among the first `k` tiles come in strictly ascending id
/// order.
proof fn lemma_members_upto_sorted(tiles: Seq<Tile>, adj: Seq<Seq<TileId>>, r: int, k: int)
    requires
        0 <= k <= tiles.len(),
        tiles.len() <= u32::MAX,
    ensures
        forall|a: int, b: int|
            0 <= a < b < members_upto(tiles, adj, r, k).len() ==> (#[trigger] members_upto(tiles, adj, r, k)[a]).0
                < (#[trigger] members_upto(tiles, adj, r, k)[b]).0,
    decreases k,
{
    if k > 0 {
        lemma_members_upto_sorted(tiles, adj, r, k - 1);
        lemma_members_upto(tiles, adj, r, k - 1);
    }
}

/// The lowest capital found among the first `k` tiles is a capital of the territory of `r`, and
/// no member below it is one; when none is found, no member below `k` is a capital.
proof fn lemma_first_capital_upto(tiles: Seq<Tile>, adj: Seq<Seq<TileId>>, r: int, k: int)
    requires
        0 <= k <= tiles.len(),
        tiles.len() <= u32::MAX,
    ensures
        first_capital_upto(tiles, adj, r, k) matches Some(c) ==> {
            &&& 0 <= c.0 < k
            &&& linked(tiles, adj, r, c.0 as int)
            &&& tiles[c.0 as int].cover == Cover::Capital
            &&& forall|j: int| 0 <= j < c.0 && linked(tiles, adj, r, j) ==> tiles[j].cover != Cover::Capital
        },
        first_capital_upto(tiles, adj, r, k) is None ==> forall|j: int|
            0 <= j < k && linked(tiles, adj, r, j) ==> tiles[j].cover != Cover::Capital,
    decreases k,
{
    if k > 0 {
        lemma_first_capital_upto(tiles, adj, r, k - 1);
    }
}

/// Each territory is one connected run of same-owner tiles: it is not empty, lists its members in
/// ascending id order starting from its lowest id, holds exactly the tiles its lowest one is
/// linked to (see [`linked`]), all of them owned by its owner, and names as capital its lowest
/// capital member, if any. Territories come in order of their lowest ids.
pub proof fn lemma_territories_shape(tiles: Seq<Tile>, adj: Seq<Seq<TileId>>, x: int)
    requires
        board_fits(tiles, adj),
        0 <= x < spec_territories(tiles, adj).len(),
    ensures
        ({
            let t = spec_territories(tiles, adj)[x];
            let first = t.tiles[0].0 as int;
            &&& t.tiles.len() > 0
            &&& tiles[first].owner == Some(t.owner)
            &&& forall|a: int, b: int| 0 <= a < b < t.tiles.len() ==> (#[trigger] t.tiles[a]).0 < (#[trigger] t.tiles[b]).0
            &&& forall|j: int|
                0 <= j < tiles.len() ==> (t.tiles.contains(TileId(j as u32)) <==> linked(tiles, adj, first, j))
            &&& forall|k: int| 0 <= k < t.tiles.len() ==> (#[trigger] t.tiles[k]).0 < tiles.len()
            &&& forall|k: int| 0 <= k < t.tiles.len() ==> tiles[(#[trigger] t.tiles[k]).0 as int].owner == Some(t.owner)
            &&& t.capital matches Some(c) ==> t.tiles.contains(c) && tiles[c.0 as int].cover == Cover::Capital
                && forall|k: int| 0 <= k < t.tiles.len() && (#[trigger] t.tiles[k]).0 < c.0 ==> tiles[t.tiles[k].0 as int].cover
                != Cover::Capital
            &&& t.capital is None ==> forall|k: int| 0 <= k < t.tiles.len() ==> tiles[(#[trigger] t.tiles[k]).0 as int].cover
                != Cover::Capital
        }),
        forall|y: int|
            x < y < spec_territories(tiles, adj).len() ==> spec_territories(tiles, adj)[x].tiles[0].0 < (
            #[trigger] spec_territories(tiles, adj)[y]).tiles[0].0,
{
    let n = tiles.len() as int;
    let ts = spec_territories(tiles, adj);
    let reps = reps_upto(tiles, adj, n);
    lemma_reps_upto(tiles, adj, n);
    assert forall|z: int| 0 <= z < ts.len() implies (#[trigger] ts[z]).tiles.len() > 0 && ts[z].tiles[0].0 == reps[z]
        && tiles[reps[z]].owner == Some(ts[z].owner) by {
        let r = reps[z];
        let m = members_upto(tiles, adj, r, n);
        assert(ts[z].tiles == m);
        lemma_members_upto(tiles, adj, r, n);
        lemma_members_upto_sorted(tiles, adj, r, n);
        lemma_linked_refl(tiles, adj, r);
        assert(m.contains(TileId(r as u32)));
        let i = choose|i: int| 0 <= i < m.len() && m[i] == TileId(r as u32);
        let f = m[0].0 as int;
        assert(linked(tiles, adj, r, f));
        if f < r {
            lemma_linked_sym(tiles, adj, r, f);
        }
        if i > 0 {
            assert(m[0].0 < m[i].0);
        }
    }
    let t = ts[x];
    let r = reps[x];
    let m = members_upto(tiles, adj, r, n);
    assert(t == territory_at(tiles, adj, r));
    lemma_members_upto(tiles, adj, r, n);
    lemma_members_upto_sorted(tiles, adj, r, n);
    lemma_first_capital_upto(tiles, adj, r, n);
    assert forall|k: int| 0 <= k < t.tiles.len() implies tiles[(#[trigger] t.tiles[k]).0 as int].owner == Some(t.owner) by {
        assert(m.contains(m[k]));
        lemma_linked_owner(tiles, adj, r, m[k].0 as int);
    }
    if t.capital is Some {
        let c = t.capital->0;
        assert(t.tiles.contains(c));
        assert forall|k: int| 0 <= k < t.tiles.len() && (#[trigger] t.tiles[k]).0 < c.0 implies tiles[t.tiles[k].0 as int].cover
            != Cover::Capital by {
            let j = m[k].0 as int;
            assert(TileId(j as u32) == m[k]);
            assert(m.contains(m[k]));
            assert(linked(tiles, adj, r, j));
        }
    } else {
        assert forall|k: int| 0 <= k < t.tiles.len() implies tiles[(#[trigger] t.tiles[k]).0 as int].cover != Cover::Capital by {
            let j = m[k].0 as int;
            assert(TileId(j as u32) == m[k]);
            assert(m.contains(m[k]));
            assert(linked(tiles, adj, r, j));
        }
    }
    assert forall|y: int| x < y < ts.len() implies ts[x].tiles[0].0 < (#[trigger] ts[y]).tiles[0].0 by {
        assert(reps[x] < reps[y]);
    }
}

} // verus!
