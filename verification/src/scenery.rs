//! Plain data the scenery builders share.

use vstd::prelude::*;

use crate::board::{adjacency_ok, views_of, Board};
use crate::tile::{Cover, Terrain, TileId, TileState, WorldSnapshot};

verus! {

/// Colour at the rim of the sky, behind the space pass.
pub const SKY_RIM: &'static str = "#030209";

/// How a texture axis wraps.
#[derive(Debug, Clone, Copy, PartialEq, Eq, Structural)]
pub enum Wrap {
    /// Clamp to edge.
    Clamp,
    /// Repeat.
    Repeat,
}

/// Connected runs of tiles carrying one cover, none spanning more than a given angle of sky.
#[derive(Debug, Clone, PartialEq, Default)]
pub struct Zones {
    /// Tiles of each zone, in the order the flood fill reached them.
    pub zones: Vec<Vec<TileId>>,
    /// Zone index per tile, or `-1` where the tile is not in one.
    pub zone_of: Vec<i32>,
    /// How many tiles carry the cover altogether.
    pub total: usize,
}

/// Tile `i` of `tiles` is land carrying `kind`.
pub open spec fn carries(tiles: Seq<TileState>, kind: Cover, i: int) -> bool {
    tiles[i].cover == kind && tiles[i].terrain == Terrain::Land
}

/// Which tiles of `tiles` are land carrying `kind`.
pub open spec fn carrying(tiles: Seq<TileState>, kind: Cover) -> Seq<bool> {
    Seq::new(tiles.len(), |i: int| carries(tiles, kind, i))
}

/// How many of the first `n` tiles are land carrying `kind`.
pub open spec fn count_carrying(tiles: Seq<TileState>, kind: Cover, n: int) -> nat
    decreases n,
{
    if n <= 0 {
        0
    } else {
        count_carrying(tiles, kind, n - 1) + if carries(tiles, kind, n - 1) { 1nat } else { 0nat }
    }
}

/// How many members of zone `zi` have had their neighbours looked at: all of them, except in
/// the last zone, where the first `h`.
pub open spec fn explored(zs: Seq<Seq<TileId>>, zi: int, h: int) -> int {
    if zi == zs.len() - 1 {
        h
    } else {
        zs[zi].len() as int
    }
}

/// Length of the last zone, 0 when there is none.
pub open spec fn last_len(zs: Seq<Seq<TileId>>) -> int {
    if zs.len() == 0 {
        0
    } else {
        zs[zs.len() - 1].len() as int
    }
}

/// A neighbour `j` of a member of zone `zi`, whose first tile is `seed`, stays out of the zone
/// only for a reason: it sits in that zone or an earlier one, or `near` refused it.
pub open spec fn closed_at<F: Fn(TileId, TileId) -> bool>(near: F, zo: Seq<i32>, j: TileId, seed: TileId, zi: int) -> bool {
    (0 <= zo[j.0 as int] && zo[j.0 as int] <= zi) || near.ensures((j, seed), false)
}

/// The zones `zs`, and `zo` mapping each tile to its zone (`-1` for none), as the flood fill
/// leaves them over the marked tiles `mk` of a board with adjacency `adj`: every zone is a run
/// of distinct marked tiles grown from its first tile through neighbours that `near` accepted
/// against that first tile, listed in breadth-first order (see [`first_parent`] and
/// [`reached_before`]); no zone's first tile comes after a marked tile that is in no earlier
/// zone; and a marked neighbour of an explored member (see [`explored`]) is left out only for a
/// reason (see [`closed_at`]).
pub open spec fn zones_fit<F: Fn(TileId, TileId) -> bool>(
    near: F,
    adj: Seq<Seq<TileId>>,
    mk: Seq<bool>,
    zs: Seq<Seq<TileId>>,
    zo: Seq<i32>,
    h: int,
) -> bool {
    let n = mk.len();
    &&& zo.len() == n
    &&& forall|i: int| 0 <= i < n ==> -1 <= #[trigger] zo[i] < zs.len()
    &&& forall|i: int|
        0 <= i < n && #[trigger] zo[i] >= 0 ==> mk[i] && zs[zo[i] as int].contains(TileId(i as u32))
    &&& forall|zi: int, k: int|
        0 <= zi < zs.len() && 0 <= k < zs[zi].len() ==> (#[trigger] zs[zi][k]).0 < n && zo[zs[zi][k].0 as int]
            == zi
    &&& forall|zi: int| 0 <= zi < zs.len() ==> (#[trigger] zs[zi]).len() > 0 && zs[zi].no_duplicates()
    &&& forall|zi: int, i: int|
        #![trigger zs[zi], zo[i]]
        0 <= zi < zs.len() && 0 <= i < zs[zi][0].0 && mk[i] ==> 0 <= zo[i] < zi
    &&& forall|zi: int, k: int|
        0 <= zi < zs.len() && 0 < k < zs[zi].len() ==> near.ensures((#[trigger] zs[zi][k], zs[zi][0]), true)
    &&& forall|zi: int, k: int| 0 <= zi < zs.len() && 0 < k < zs[zi].len() ==> #[trigger] first_parent(adj, zs[zi], k) < k
    &&& forall|zi: int, k1: int, k2: int|
        0 <= zi < zs.len() && 0 < k1 < k2 < zs[zi].len() ==> #[trigger] reached_before(adj, zs[zi], k1, k2)
    &&& forall|zi: int, k: int, kk: int|
        #![trigger adj[zs[zi][k].0 as int][kk]]
        0 <= zi < zs.len() && 0 <= k < explored(zs, zi, h) && 0 <= kk < adj[zs[zi][k].0 as int].len()
            && mk[adj[zs[zi][k].0 as int][kk].0 as int] ==> closed_at(
            near,
            zo,
            adj[zs[zi][k].0 as int][kk],
            zs[zi][0],
            zi,
        )
}

/// The first of the members `zone[h..k)` that lists `zone[k]` among its neighbours; `k` when
/// none does.
pub open spec fn first_parent_from(adj: Seq<Seq<TileId>>, zone: Seq<TileId>, k: int, h: int) -> int
    decreases k - h,
{
    if h >= k {
        k
    } else if adj[zone[h].0 as int].contains(zone[k]) {
        h
    } else {
        first_parent_from(adj, zone, k, h + 1)
    }
}

/// The first member before `k` that lists member `k` among its neighbours: the one the flood
/// fill reached it from. `k` when none does.
pub open spec fn first_parent(adj: Seq<Seq<TileId>>, zone: Seq<TileId>, k: int) -> int {
    first_parent_from(adj, zone, k, 0)
}

/// Position of the first `t` in `s` from `i` on; `s.len()` when there is none.
pub open spec fn first_index_from(s: Seq<TileId>, t: TileId, i: int) -> int
    decreases s.len() - i,
{
    if i >= s.len() {
        s.len() as int
    } else if s[i] == t {
        i
    } else {
        first_index_from(s, t, i + 1)
    }
}

/// Position of the first `t` in `s`; `s.len()` when there is none.
pub open spec fn first_index(s: Seq<TileId>, t: TileId) -> int {
    first_index_from(s, t, 0)
}

/// Member `k1` of a zone was reached before member `k2`: from an earlier member, or from the same
/// member earlier in its neighbour list. This is the order of a breadth-first fill.
pub open spec fn reached_before(adj: Seq<Seq<TileId>>, zone: Seq<TileId>, k1: int, k2: int) -> bool {
    let p1 = first_parent(adj, zone, k1);
    let p2 = first_parent(adj, zone, k2);
    p1 < p2 || (p1 == p2 && first_index(adj[zone[p1].0 as int], zone[k1]) < first_index(
        adj[zone[p1].0 as int],
        zone[k2],
    ))
}

/// `near` gives one answer for each pair of tiles.
pub open spec fn deterministic<F: Fn(TileId, TileId) -> bool>(near: F) -> bool {
    forall|a: TileId, b: TileId, r1: bool, r2: bool|
        #![trigger near.ensures((a, b), r1), near.ensures((a, b), r2)]
        near.ensures((a, b), r1) && near.ensures((a, b), r2) ==> r1 == r2
}

proof fn lemma_first_parent_from(adj: Seq<Seq<TileId>>, zone: Seq<TileId>, k: int, h: int)
    requires
        0 <= h <= k,
    ensures
        h <= first_parent_from(adj, zone, k, h) <= k,
        first_parent_from(adj, zone, k, h) < k ==> adj[zone[first_parent_from(adj, zone, k, h)].0 as int].contains(
            zone[k],
        ),
        forall|m: int| h <= m < first_parent_from(adj, zone, k, h) ==> !adj[zone[m].0 as int].contains(zone[k]),
    decreases k - h,
{
    if h < k && !adj[zone[h].0 as int].contains(zone[k]) {
        lemma_first_parent_from(adj, zone, k, h + 1);
    }
}

proof fn lemma_first_parent_push(adj: Seq<Seq<TileId>>, zone: Seq<TileId>, x: TileId, k: int, h: int)
    requires
        0 <= h <= k < zone.len(),
    ensures
        first_parent_from(adj, zone.push(x), k, h) == first_parent_from(adj, zone, k, h),
    decreases k - h,
{
    if h < k {
        assert(zone.push(x)[h] == zone[h]);
        lemma_first_parent_push(adj, zone, x, k, h + 1);
    }
    assert(zone.push(x)[k] == zone[k]);
}

proof fn lemma_first_index_from(s: Seq<TileId>, t: TileId, i: int)
    requires
        0 <= i <= s.len(),
    ensures
        i <= first_index_from(s, t, i) <= s.len(),
        first_index_from(s, t, i) < s.len() ==> s[first_index_from(s, t, i)] == t,
        forall|m: int| i <= m < first_index_from(s, t, i) ==> s[m] != t,
    decreases s.len() - i,
{
    if i < s.len() && s[i] != t {
        lemma_first_index_from(s, t, i + 1);
    }
}

/// How many of the first `n` entries of `zo` name a zone.
spec fn count_assigned(zo: Seq<i32>, n: int) -> nat
    decreases n,
{
    if n <= 0 {
        0
    } else {
        count_assigned(zo, n - 1) + if zo[n - 1] >= 0 { 1nat } else { 0nat }
    }
}

proof fn lemma_count_assigned_le(zo: Seq<i32>, n: int)
    requires
        0 <= n,
    ensures
        count_assigned(zo, n) <= n,
    decreases n,
{
    if n > 0 {
        lemma_count_assigned_le(zo, n - 1);
    }
}

proof fn lemma_count_assigned_agree(a: Seq<i32>, b: Seq<i32>, n: int)
    requires
        0 <= n,
        forall|i: int| 0 <= i < n ==> a[i] == b[i],
    ensures
        count_assigned(a, n) == count_assigned(b, n),
    decreases n,
{
    if n > 0 {
        lemma_count_assigned_agree(a, b, n - 1);
    }
}

proof fn lemma_count_assigned_set(zo: Seq<i32>, n: int, i: int, v: i32)
    requires
        0 <= i < n <= zo.len(),
        zo[i] < 0,
        v >= 0,
    ensures
        count_assigned(zo.update(i, v), n) == count_assigned(zo, n) + 1,
    decreases n,
{
    if n - 1 > i {
        lemma_count_assigned_set(zo, n - 1, i, v);
    } else {
        lemma_count_assigned_agree(zo, zo.update(i, v), n - 1);
    }
}

proof fn lemma_count_assigned_none(zo: Seq<i32>, n: int)
    requires
        0 <= n <= zo.len(),
        forall|i: int| 0 <= i < n ==> zo[i] < 0,
    ensures
        count_assigned(zo, n) == 0,
    decreases n,
{
    if n > 0 {
        lemma_count_assigned_none(zo, n - 1);
    }
}

fn carry_marks(tiles: &Vec<TileState>, kind: Cover) -> (r: (Vec<bool>, usize))
    ensures
        r.0@ == carrying(tiles@, kind),
        r.1 == count_carrying(tiles@, kind, tiles@.len() as int),
{
    let mut mark: Vec<bool> = Vec::new();
    let mut total: usize = 0;
    let mut i: usize = 0;
    while i < tiles.len()
        invariant
            i <= tiles@.len(),
            mark@ == Seq::new(i as nat, |x: int| carries(tiles@, kind, x)),
            total == count_carrying(tiles@, kind, i as int),
            total <= i,
        decreases tiles.len() - i,
    {
        let t = tiles[i];
        let m = t.cover == kind && t.terrain.is_land();
        mark.push(m);
        if m {
            total += 1;
        }
        assert(mark@ =~= Seq::new((i + 1) as nat, |x: int| carries(tiles@, kind, x)));
        i += 1;
    }
    assert(mark@ =~= carrying(tiles@, kind));
    (mark, total)
}

/// Grows zone `z`, the one after the zones `zs`, from the marked, unassigned tile `s`: the flood
/// fill through marked, unassigned neighbours that `near` accepts against `s`.
fn grow_zone<B: Board, F: Fn(TileId, TileId) -> bool>(
    board: &B,
    mark: &Vec<bool>,
    zone_of: &mut Vec<i32>,
    s: usize,
    z: i32,
    near: &F,
    Ghost(zs): Ghost<Seq<Seq<TileId>>>,
) -> (q: Vec<TileId>)
    requires
        adjacency_ok(board.adjacency()),
        mark@.len() == board.adjacency().len(),
        mark@.len() < i32::MAX,
        forall|a: TileId, b: TileId| near.requires((a, b)),
        deterministic(*near),
        zones_fit(*near, board.adjacency(), mark@, zs, old(zone_of)@, last_len(zs)),
        z == zs.len(),
        z < i32::MAX,
        s < mark@.len(),
        mark@[s as int],
        old(zone_of)@[s as int] == -1,
        forall|zi: int| 0 <= zi < zs.len() ==> (#[trigger] zs[zi])[0].0 < s,
        forall|i: int| 0 <= i < s && mark@[i] ==> old(zone_of)@[i] >= 0,
    ensures
        zones_fit(*near, board.adjacency(), mark@, zs.push(q@), final(zone_of)@, q@.len() as int),
        q@[0] == TileId(s as u32),
        forall|i: int| 0 <= i < mark@.len() && old(zone_of)@[i] >= 0 ==> final(zone_of)@[i] == old(zone_of)@[i],
        count_assigned(final(zone_of)@, mark@.len() as int) >= count_assigned(old(zone_of)@, mark@.len() as int) + 1,
{
    let ghost n = mark@.len() as int;
    let ghost adj = board.adjacency();
    let ghost zo0 = zone_of@;
    let seed = TileId(s as u32);
    let mut q: Vec<TileId> = Vec::new();
    q.push(seed);
    zone_of.set(s, z);
    proof {
        lemma_count_assigned_set(zo0, n, s as int, z);
        lemma_count_assigned_le(zone_of@, n);
        let zs1 = zs.push(q@);
        assert(zs1[z as int] == q@);
        assert forall|zi: int, i: int|
            #![trigger zs1[zi], zone_of@[i]]
            0 <= zi < zs1.len() && 0 <= i < zs1[zi][0].0 && mark@[i] implies 0 <= zone_of@[i] < zi by {
            if zi < zs.len() {
                assert(zs1[zi] == zs[zi]);
                assert(zo0[i] == zone_of@[i]);
            } else {
                assert(i < s);
                assert(zo0[i] == zone_of@[i]);
            }
        }
        assert forall|i: int| 0 <= i < n && #[trigger] zone_of@[i] >= 0 implies mark@[i] && zs1[zone_of@[i] as int].contains(
            TileId(i as u32),
        ) by {
            if i == s {
                assert(zs1[z as int][0] == TileId(i as u32));
            } else {
                assert(zs1[zo0[i] as int] == zs[zo0[i] as int]);
            }
        }
        assert forall|zi: int, k: int|
            0 <= zi < zs1.len() && 0 <= k < zs1[zi].len() implies (#[trigger] zs1[zi][k]).0 < n && zone_of@[zs1[zi][k].0 as int]
            == zi by {
            if zi < zs.len() {
                assert(zs1[zi] == zs[zi]);
                assert(zs[zi][k].0 != s);
            }
        }
        assert forall|zi: int, k: int, kk: int|
            #![trigger adj[zs1[zi][k].0 as int][kk]]
            0 <= zi < zs1.len() && 0 <= k < explored(zs1, zi, 0) && 0 <= kk < adj[zs1[zi][k].0 as int].len()
                && mark@[adj[zs1[zi][k].0 as int][kk].0 as int] implies closed_at(
            *near,
            zone_of@,
            adj[zs1[zi][k].0 as int][kk],
            zs1[zi][0],
            zi,
        ) by {
            assert(zi < zs.len());
            assert(zs1[zi] == zs[zi]);
            assert(closed_at(*near, zo0, adj[zs[zi][k].0 as int][kk], zs[zi][0], zi));
        }
        assert forall|zi: int, k: int| 0 <= zi < zs1.len() && 0 < k < zs1[zi].len() implies #[trigger] first_parent(
            adj,
            zs1[zi],
            k,
        ) < k by {
            assert(zi < zs.len());
            assert(zs1[zi] == zs[zi]);
        }
        assert forall|zi: int, k1: int, k2: int|
            0 <= zi < zs1.len() && 0 < k1 < k2 < zs1[zi].len() implies #[trigger] reached_before(adj, zs1[zi], k1, k2) by {
            assert(zi < zs.len());
            assert(zs1[zi] == zs[zi]);
        }
        assert forall|zi: int| 0 <= zi < zs1.len() implies (#[trigger] zs1[zi]).len() > 0 && zs1[zi].no_duplicates() by {
            if zi < zs.len() {
                assert(zs1[zi] == zs[zi]);
            }
        }
    }
    let mut head: usize = 0;
    while head < q.len()
        invariant
            adjacency_ok(adj),
            adj == board.adjacency(),
            mark@.len() == n,
            n == adj.len(),
            n < i32::MAX,
            forall|a: TileId, b: TileId| near.requires((a, b)),
            deterministic(*near),
            zones_fit(*near, adj, mark@, zs.push(q@), zone_of@, head as int),
            forall|k: int| 0 < k < q@.len() ==> #[trigger] first_parent(adj, q@, k) < head,
            z == zs.len(),
            z < i32::MAX,
            s < n,
            seed == TileId(s as u32),
            head <= q@.len(),
            q@.len() >= 1,
            q@[0] == seed,
            zo0.len() == n,
            forall|i: int| 0 <= i < n && zo0[i] >= 0 ==> zone_of@[i] == zo0[i],
            count_assigned(zone_of@, n) == count_assigned(zo0, n) + q@.len(),
            count_assigned(zone_of@, n) <= n,
        decreases (n - count_assigned(zone_of@, n)) + (q@.len() - head),
    {
        proof {
            assert(zs.push(q@)[z as int] == q@);
            assert(zs.push(q@)[z as int][head as int].0 < n);
        }
        let id = q[head];
        head += 1;
        let nb = board.neighbors(id);
        let ghost h0 = head as int - 1;
        let mut kk: usize = 0;
        while kk < nb.len()
            invariant
                adjacency_ok(adj),
                adj == board.adjacency(),
                mark@.len() == n,
                n == adj.len(),
                n < i32::MAX,
                forall|a: TileId, b: TileId| near.requires((a, b)),
                deterministic(*near),
                zones_fit(*near, adj, mark@, zs.push(q@), zone_of@, h0),
                forall|k: int|
                    0 < k < q@.len() ==> #[trigger] first_parent(adj, q@, k) < h0 || (first_parent(adj, q@, k) == h0
                        && first_index(adj[q@[h0].0 as int], q@[k]) < kk),
                z == zs.len(),
                z < i32::MAX,
                s < n,
                seed == TileId(s as u32),
                0 <= h0 < head <= q@.len(),
                h0 == head - 1,
                id == q@[h0],
                id.0 < n,
                nb@ == adj[id.0 as int],
                kk <= nb@.len(),
                q@.len() >= 1,
                q@[0] == seed,
                forall|x: int| 0 <= x < kk && mark@[nb@[x].0 as int] ==> #[trigger] closed_at(*near, zone_of@, nb@[x], seed, z as int),
                zo0.len() == n,
                forall|i: int| 0 <= i < n && zo0[i] >= 0 ==> zone_of@[i] == zo0[i],
                count_assigned(zone_of@, n) == count_assigned(zo0, n) + q@.len(),
                count_assigned(zone_of@, n) <= n,
            decreases nb.len() - kk,
        {
            let j = nb[kk];
            let ju = j.0 as usize;
            proof {
                assert(adj[id.0 as int][kk as int] == j);
            }
            if mark[ju] && zone_of[ju] < 0 {
                if near(j, seed) {
                    let ghost zo1 = zone_of@;
                    let ghost q1 = q@;
                    zone_of.set(ju, z);
                    q.push(j);
                    proof {
                        lemma_count_assigned_set(zo1, n, ju as int, z);
                        lemma_count_assigned_le(zone_of@, n);
                        grow_step(*near, adj, mark@, zs, q1, zo1, j, h0, kk as int, z as int, seed);
                    }
                }
            }
            kk += 1;
        }
        proof {
            let zs1 = zs.push(q@);
            assert(zs1[z as int] == q@);
            assert forall|zi: int, k: int, x: int|
                #![trigger adj[zs1[zi][k].0 as int][x]]
                0 <= zi < zs1.len() && 0 <= k < explored(zs1, zi, head as int) && 0 <= x < adj[zs1[zi][k].0 as int].len()
                    && mark@[adj[zs1[zi][k].0 as int][x].0 as int] implies closed_at(
                *near,
                zone_of@,
                adj[zs1[zi][k].0 as int][x],
                zs1[zi][0],
                zi,
            ) by {
                if zi == z && k == h0 {
                    assert(nb@[x] == adj[zs1[zi][k].0 as int][x]);
                    assert(closed_at(*near, zone_of@, nb@[x], seed, z as int));
                } else {
                    assert(k < explored(zs1, zi, h0));
                }
            }
        }
    }
    q
}

/// Adding the accepted neighbour `j` of member `h0` to the zone being grown keeps the zones
/// fitting, and keeps every reason a tile was left out.
proof fn grow_step<F: Fn(TileId, TileId) -> bool>(
    near: F,
    adj: Seq<Seq<TileId>>,
    mk: Seq<bool>,
    zs: Seq<Seq<TileId>>,
    q: Seq<TileId>,
    zo: Seq<i32>,
    j: TileId,
    h0: int,
    kk: int,
    z: int,
    seed: TileId,
)
    requires
        deterministic(near),
        0 <= kk < adj[q[h0].0 as int].len(),
        adj[q[h0].0 as int][kk] == j,
        forall|x: int|
            0 <= x < kk && mk[adj[q[h0].0 as int][x].0 as int] ==> #[trigger] closed_at(
                near,
                zo,
                adj[q[h0].0 as int][x],
                seed,
                z,
            ),
        forall|k: int|
            0 < k < q.len() ==> #[trigger] first_parent(adj, q, k) < h0 || (first_parent(adj, q, k) == h0
                && first_index(adj[q[h0].0 as int], q[k]) < kk),
        adjacency_ok(adj),
        mk.len() == adj.len(),
        adj.len() < i32::MAX,
        zones_fit(near, adj, mk, zs.push(q), zo, h0),
        z == zs.len(),
        z < i32::MAX,
        0 <= h0 < q.len(),
        q[0] == seed,
        j.0 < mk.len(),
        mk[j.0 as int],
        zo[j.0 as int] < 0,
        near.ensures((j, seed), true),
    ensures
        zones_fit(near, adj, mk, zs.push(q.push(j)), zo.update(j.0 as int, z as i32), h0),
        forall|k: int|
            0 < k < q.len() + 1 ==> #[trigger] first_parent(adj, q.push(j), k) < h0 || (first_parent(adj, q.push(j), k)
                == h0 && first_index(adj[q.push(j)[h0].0 as int], q.push(j)[k]) < kk + 1),
        closed_at(near, zo.update(j.0 as int, z as i32), j, seed, z),
        forall|t: TileId, sd: TileId, zi: int|
            closed_at(near, zo, t, sd, zi) && t.0 < mk.len() ==> #[trigger] closed_at(
                near,
                zo.update(j.0 as int, z as i32),
                t,
                sd,
                zi,
            ),
{
    let n = mk.len() as int;
    let zs1 = zs.push(q);
    let q2 = q.push(j);
    let zs2 = zs.push(q2);
    let zo2 = zo.update(j.0 as int, z as i32);
    assert(zs1[z] == q);
    assert(zs2[z] == q2);
    assert forall|zi: int| 0 <= zi < zs2.len() && zi != z implies #[trigger] zs2[zi] == zs1[zi] by {}
    assert forall|i: int| 0 <= i < n implies -1 <= #[trigger] zo2[i] < zs2.len() by {
        if i != j.0 {
            assert(zo2[i] == zo[i]);
        }
    }
    assert forall|i: int| 0 <= i < n && #[trigger] zo2[i] >= 0 implies mk[i] && zs2[zo2[i] as int].contains(
        TileId(i as u32),
    ) by {
        if i == j.0 {
            assert(q2[q.len() as int] == j);
            assert(j == TileId(i as u32));
        } else {
            assert(zo2[i] == zo[i]);
            assert(zs1[zo[i] as int].contains(TileId(i as u32)));
            if zo[i] == z {
                let w = choose|w: int| 0 <= w < q.len() && q[w] == TileId(i as u32);
                assert(q2[w] == TileId(i as u32));
            }
        }
    }
    assert forall|zi: int, k: int|
        0 <= zi < zs2.len() && 0 <= k < zs2[zi].len() implies (#[trigger] zs2[zi][k]).0 < n && zo2[zs2[zi][k].0 as int]
        == zi by {
        if zi == z && k == q.len() {
        } else {
            assert(zs2[zi][k] == zs1[zi][k]);
            assert(zo[zs1[zi][k].0 as int] == zi);
        }
    }
    assert forall|zi: int| 0 <= zi < zs2.len() implies (#[trigger] zs2[zi]).len() > 0 && zs2[zi].no_duplicates() by {
        if zi == z {
            assert(zs1[z].len() > 0);
            assert forall|a: int, b: int| 0 <= a < b < q2.len() implies q2[a] != q2[b] by {
                if b == q.len() {
                    assert(zs1[z][a] == q[a]);
                    assert(zo[q[a].0 as int] == z);
                } else {
                    assert(zs1[z].no_duplicates());
                }
            }
        }
    }
    assert forall|zi: int, i: int|
        #![trigger zs2[zi], zo2[i]]
        0 <= zi < zs2.len() && 0 <= i < zs2[zi][0].0 && mk[i] implies 0 <= zo2[i] < zi by {
        assert(zs2[zi][0] == zs1[zi][0]);
        assert(zs1[zi] == zs1[zi]);
        assert(0 <= zo[i] < zi);
        if i == j.0 {
            assert(false);
        }
    }
    assert forall|zi: int, k: int|
        0 <= zi < zs2.len() && 0 < k < zs2[zi].len() implies near.ensures((#[trigger] zs2[zi][k], zs2[zi][0]), true) by {
        if zi == z && k == q.len() {
            assert(zs2[zi][0] == seed);
        } else {
            assert(zs2[zi][k] == zs1[zi][k]);
            assert(zs2[zi][0] == zs1[zi][0]);
        }
    }
    let row = adj[q[h0].0 as int];
    let big = q.len() as int;
    // No member explored before `h0` lists `j`, and `j` first appears at `kk` in the list of `h0`:
    // either would have put `j` in the zone already, `near` answering as it does now.
    assert forall|m: int| 0 <= m < h0 implies !adj[q[m].0 as int].contains(j) by {
        if adj[q[m].0 as int].contains(j) {
            let x = choose|x: int| 0 <= x < adj[q[m].0 as int].len() && adj[q[m].0 as int][x] == j;
            assert(zs1[z][m] == q[m]);
            assert(zs1[z][0] == seed);
            assert(explored(zs1, z, h0) == h0);
            assert(closed_at(near, zo, adj[zs1[z][m].0 as int][x], zs1[z][0], z));
        }
    }
    assert forall|x: int| 0 <= x < kk implies row[x] != j by {
        if row[x] == j {
            assert(closed_at(near, zo, adj[q[h0].0 as int][x], seed, z));
        }
    }
    lemma_first_parent_from(adj, q2, big, 0);
    assert forall|m: int| 0 <= m < big implies q2[m] == q[m] by {}
    assert(q2[big] == j);
    assert(first_parent(adj, q2, big) == h0) by {
        assert(q2[h0] == q[h0]);
        assert(adj[q2[h0].0 as int].contains(j));
    }
    lemma_first_index_from(row, j, 0);
    assert(first_index(row, j) == kk);
    assert forall|k: int| 0 < k < big implies #[trigger] first_parent(adj, q2, k) == first_parent(adj, q, k) by {
        lemma_first_parent_push(adj, q, j, k, 0);
    }
    assert(q2[h0] == q[h0]);
    assert forall|k: int|
        0 < k < big + 1 implies #[trigger] first_parent(adj, q2, k) < h0 || (first_parent(adj, q2, k) == h0
            && first_index(adj[q2[h0].0 as int], q2[k]) < kk + 1) by {
        if k < big {
            assert(first_parent(adj, q2, k) == first_parent(adj, q, k));
            assert(q2[k] == q[k]);
        }
    }
    assert forall|zi: int, k: int| 0 <= zi < zs2.len() && 0 < k < zs2[zi].len() implies #[trigger] first_parent(
        adj,
        zs2[zi],
        k,
    ) < k by {
        if zi == z {
            if k < big {
                assert(first_parent(adj, q2, k) == first_parent(adj, q, k));
                assert(zs1[z] == q);
            }
        } else {
            assert(zs2[zi] == zs1[zi]);
        }
    }
    assert forall|zi: int, k1: int, k2: int|
        0 <= zi < zs2.len() && 0 < k1 < k2 < zs2[zi].len() implies #[trigger] reached_before(adj, zs2[zi], k1, k2) by {
        if zi == z {
            assert(first_parent(adj, q2, k1) == first_parent(adj, q, k1));
            assert(q2[k1] == q[k1]);
            if k2 < big {
                assert(first_parent(adj, q2, k2) == first_parent(adj, q, k2));
                assert(q2[k2] == q[k2]);
                assert(zs1[z] == q);
                assert(reached_before(adj, zs1[z], k1, k2));
                lemma_first_parent_from(adj, q, k1, 0);
                let p1 = first_parent(adj, q, k1);
                assert(q2[p1] == q[p1]);
            } else {
                let p1 = first_parent(adj, q, k1);
                if p1 == h0 {
                    assert(q2[p1] == q[p1]);
                }
            }
        } else {
            assert(zs2[zi] == zs1[zi]);
        }
    }
    assert forall|t: TileId, sd: TileId, zi: int|
        closed_at(near, zo, t, sd, zi) && t.0 < mk.len() implies #[trigger] closed_at(near, zo2, t, sd, zi) by {
        if t.0 != j.0 {
            assert(zo2[t.0 as int] == zo[t.0 as int]);
        }
    }
    assert forall|zi: int, k: int, kk: int|
        #![trigger adj[zs2[zi][k].0 as int][kk]]
        0 <= zi < zs2.len() && 0 <= k < explored(zs2, zi, h0) && 0 <= kk < adj[zs2[zi][k].0 as int].len()
            && mk[adj[zs2[zi][k].0 as int][kk].0 as int] implies closed_at(
        near,
        zo2,
        adj[zs2[zi][k].0 as int][kk],
        zs2[zi][0],
        zi,
    ) by {
        assert(zs2[zi][k] == zs1[zi][k]);
        assert(zs2[zi][0] == zs1[zi][0]);
        assert(explored(zs1, zi, h0) == explored(zs2, zi, h0));
        assert(closed_at(near, zo, adj[zs1[zi][k].0 as int][kk], zs1[zi][0], zi));
        assert(adj[zs1[zi][k].0 as int][kk].0 < mk.len());
    }
}

/// The connected runs of land tiles carrying `kind` on `board`. Each zone is grown from its
/// lowest-id tile through neighbours for which `near(neighbour, first tile)` holds, in the order
/// the flood fill reaches them, so no zone spans more than `near` allows; the zones' first tiles
/// come in id order. `near` answers the same for the same pair of tiles.
pub fn cover_zones<B: Board, F: Fn(TileId, TileId) -> bool>(
    board: &B,
    world: &WorldSnapshot,
    kind: Cover,
    near: F,
) -> (out: Zones)
    requires
        adjacency_ok(board.adjacency()),
        world.tiles@.len() == board.adjacency().len(),
        board.adjacency().len() < i32::MAX,
        forall|a: TileId, b: TileId| near.requires((a, b)),
        deterministic(near),
    ensures
        out.total == count_carrying(world.tiles@, kind, world.tiles@.len() as int),
        out.zone_of@.len() == world.tiles@.len(),
        forall|i: int| 0 <= i < world.tiles@.len() ==> (#[trigger] out.zone_of@[i] >= 0) == carries(world.tiles@, kind, i),
        zones_fit(
            near,
            board.adjacency(),
            carrying(world.tiles@, kind),
            views_of(out.zones@),
            out.zone_of@,
            last_len(views_of(out.zones@)),
        ),
{
    let ghost adj = board.adjacency();
    let (mark, total) = carry_marks(&world.tiles, kind);
    let n = mark.len();
    let mut zone_of: Vec<i32> = Vec::new();
    let mut i: usize = 0;
    while i < n
        invariant
            i <= n,
            zone_of@ == Seq::new(i as nat, |x: int| -1i32),
        decreases n - i,
    {
        zone_of.push(-1);
        assert(zone_of@ =~= Seq::new((i + 1) as nat, |x: int| -1i32));
        i += 1;
    }
    proof {
        lemma_count_assigned_none(zone_of@, n as int);
    }
    let mut zones: Vec<Vec<TileId>> = Vec::new();
    let mut s: usize = 0;
    while s < n
        invariant
            adjacency_ok(adj),
            adj == board.adjacency(),
            mark@ == carrying(world.tiles@, kind),
            n == mark@.len(),
            n == adj.len(),
            n < i32::MAX,
            s <= n,
            forall|a: TileId, b: TileId| near.requires((a, b)),
            deterministic(near),
            zones_fit(near, adj, mark@, views_of(zones@), zone_of@, last_len(views_of(zones@))),
            forall|zi: int| 0 <= zi < zones@.len() ==> (#[trigger] views_of(zones@)[zi])[0].0 < s,
            forall|x: int| 0 <= x < s && mark@[x] ==> zone_of@[x] >= 0,
            zones@.len() <= count_assigned(zone_of@, n as int),
        decreases n - s,
    {
        if mark[s] && zone_of[s] < 0 {
            proof {
                lemma_count_assigned_le(zone_of@, n as int);
            }
            let z = zones.len() as i32;
            let ghost zs = views_of(zones@);
            let ghost zo0 = zone_of@;
            let q = grow_zone(board, &mark, &mut zone_of, s, z, &near, Ghost(zs));
            zones.push(q);
            proof {
                assert(views_of(zones@) =~= zs.push(q@));
                assert(last_len(views_of(zones@)) == q@.len());
                assert forall|zi: int| 0 <= zi < zones@.len() implies (#[trigger] views_of(zones@)[zi])[0].0 < s + 1 by {
                    if zi < zs.len() {
                        assert(views_of(zones@)[zi] == zs[zi]);
                    }
                }
            }
        } else {
            proof {
                assert forall|zi: int| 0 <= zi < zones@.len() implies (#[trigger] views_of(zones@)[zi])[0].0 < s + 1 by {}
            }
        }
        s += 1;
    }
    proof {
        assert forall|x: int| 0 <= x < world.tiles@.len() implies (#[trigger] zone_of@[x] >= 0) == carries(world.tiles@, kind, x) by {
            assert(mark@[x] == carries(world.tiles@, kind, x));
        }
    }
    Zones { zones, zone_of, total }
}

} // verus!
