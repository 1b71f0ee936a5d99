//! Adjacency of a playing surface: all the rules need from geometry.

use vstd::prelude::*;

use crate::tile::TileId;

verus! {

/// An adjacency is usable by the rules when every neighbour is a tile of the board and sharing
/// an edge goes both ways.
pub open spec fn adjacency_ok(adj: Seq<Seq<TileId>>) -> bool {
    &&& adj.len() <= u32::MAX
    &&& forall|a: int, k: int|
        0 <= a < adj.len() && 0 <= k < adj[a].len() ==> (#[trigger] adj[a][k]).0 < adj.len()
    &&& forall|a: int, k: int|
        0 <= a < adj.len() && 0 <= k < adj[a].len() ==> adj[(#[trigger] adj[a][k]).0 as int].contains(
            TileId(a as u32),
        )
}

/// Adjacency of a playing surface. The hex sphere implements it; tests use hand-made graphs.
pub trait Board {
    /// Neighbour list of every tile, indexed by id.
    spec fn adjacency(&self) -> Seq<Seq<TileId>>;

    /// Number of tiles; ids are `0..tile_count()`.
    fn tile_count(&self) -> (n: usize)
        ensures
            n == self.adjacency().len(),
    ;

    /// Tiles sharing an edge with `id`, in a stable order.
    fn neighbors(&self, id: TileId) -> (r: &[TileId])
        requires
            id.0 < self.adjacency().len(),
        ensures
            r@ == self.adjacency()[id.0 as int],
    ;

    /// Every id in order.
    fn ids(&self) -> (ids: Vec<TileId>)
        ensures
            ids@ == Seq::new(self.adjacency().len(), |i: int| TileId(i as u32)),
    {
        let n = self.tile_count();
        let mut ids: Vec<TileId> = Vec::new();
        let mut i: usize = 0;
        while i < n
            invariant
                i <= n,
                n == self.adjacency().len(),
                ids@ == Seq::new(i as nat, |k: int| TileId(k as u32)),
            decreases n - i,
        {
            ids.push(TileId(i as u32));
            assert(ids@ =~= Seq::new((i + 1) as nat, |k: int| TileId(k as u32)));
            i += 1;
        }
        ids
    }
}

/// A board given by explicit neighbour lists; the test double for rules.
#[derive(Debug, Clone, PartialEq, Eq)]
pub struct GraphBoard {
    neighbors: Vec<Vec<TileId>>,
}

/// The neighbour lists `from_edges` builds: each edge is inserted in both directions, in the order
/// the edges are given.
pub open spec fn edges_adjacency(tile_count: nat, edges: Seq<(u32, u32)>) -> Seq<Seq<TileId>>
    decreases edges.len(),
{
    if edges.len() == 0 {
        Seq::new(tile_count, |i: int| Seq::<TileId>::empty())
    } else {
        let prev = edges_adjacency(tile_count, edges.drop_last());
        let (a, b) = edges.last();
        let first = prev.update(a as int, prev[a as int].push(TileId(b)));
        first.update(b as int, first[b as int].push(TileId(a)))
    }
}

/// Every edge end names a tile.
pub open spec fn edges_in_range(tile_count: nat, edges: Seq<(u32, u32)>) -> bool {
    forall|i: int| 0 <= i < edges.len() ==> (#[trigger] edges[i]).0 < tile_count && edges[i].1 < tile_count
}

/// Building from edges keeps the tile count and yields a usable, symmetric adjacency in which
/// every given edge appears both ways.
pub proof fn lemma_edges_adjacency(tile_count: nat, edges: Seq<(u32, u32)>)
    requires
        edges_in_range(tile_count, edges),
        tile_count <= u32::MAX,
    ensures
        edges_adjacency(tile_count, edges).len() == tile_count,
        adjacency_ok(edges_adjacency(tile_count, edges)),
        forall|i: int| 0 <= i < edges.len() ==> {
            let (a, b) = #[trigger] edges[i];
            &&& edges_adjacency(tile_count, edges)[a as int].contains(TileId(b))
            &&& edges_adjacency(tile_count, edges)[b as int].contains(TileId(a))
        },
    decreases edges.len(),
{
    if edges.len() > 0 {
        let init = edges.drop_last();
        assert forall|i: int| 0 <= i < init.len() implies (#[trigger] init[i]).0 < tile_count
            && init[i].1 < tile_count by {
            assert(init[i] == edges[i]);
        }
        lemma_edges_adjacency(tile_count, init);
        let prev = edges_adjacency(tile_count, init);
        let (a, b) = edges.last();
        assert(edges[edges.len() - 1] == edges.last());
        let first = prev.update(a as int, prev[a as int].push(TileId(b)));
        let adj = first.update(b as int, first[b as int].push(TileId(a)));
        assert(adj == edges_adjacency(tile_count, edges));
        // every old entry survives
        assert forall|x: int, k: int| 0 <= x < prev.len() && 0 <= k < prev[x].len() implies
            #[trigger] adj[x].contains(prev[x][k]) by {
            if x == b as int {
                assert(adj[x] == first[x].push(TileId(a)));
                if x == a as int {
                    assert(first[x] == prev[x].push(TileId(b)));
                    assert(adj[x][k] == prev[x][k]);
                } else {
                    assert(adj[x][k] == prev[x][k]);
                }
            } else if x == a as int {
                assert(adj[x] == prev[x].push(TileId(b)));
                assert(adj[x][k] == prev[x][k]);
            } else {
                assert(adj[x] == prev[x]);
            }
        }
        assert(adj[a as int].contains(TileId(b))) by {
            if a == b {
                assert(adj[a as int] == first[a as int].push(TileId(a)));
                assert(first[a as int] == prev[a as int].push(TileId(b)));
                assert(adj[a as int][prev[a as int].len() as int] == TileId(b));
            } else {
                assert(adj[a as int] == prev[a as int].push(TileId(b)));
                assert(adj[a as int][prev[a as int].len() as int] == TileId(b));
            }
        }
        assert(adj[b as int].contains(TileId(a))) by {
            assert(adj[b as int] == first[b as int].push(TileId(a)));
            assert(adj[b as int][first[b as int].len() as int] == TileId(a));
        }
        assert forall|x: int, k: int| 0 <= x < adj.len() && 0 <= k < adj[x].len() implies
            (#[trigger] adj[x][k]).0 < adj.len() && adj[adj[x][k].0 as int].contains(TileId(x as u32)) by {
            let n = adj[x][k];
            if k < prev[x].len() && (x != a as int || true) && n == prev[x][k] {
                assert(prev[n.0 as int].contains(TileId(x as u32)));
                let kk = choose|kk: int| 0 <= kk < prev[n.0 as int].len() && prev[n.0 as int][kk] == TileId(x as u32);
                assert(adj[n.0 as int].contains(prev[n.0 as int][kk]));
            } else {
                // the new entries
                if x == b as int && k == adj[x].len() - 1 {
                    assert(n == TileId(a));
                } else {
                    assert(x == a as int);
                    assert(n == TileId(b));
                }
            }
        }
        assert forall|i: int| 0 <= i < edges.len() implies {
            let (p, q) = #[trigger] edges[i];
            &&& adj[p as int].contains(TileId(q))
            &&& adj[q as int].contains(TileId(p))
        } by {
            if i < edges.len() - 1 {
                assert(edges[i] == init[i]);
                let (p, q) = edges[i];
                let k1 = choose|k: int| 0 <= k < prev[p as int].len() && prev[p as int][k] == TileId(q);
                assert(adj[p as int].contains(prev[p as int][k1]));
                let k2 = choose|k: int| 0 <= k < prev[q as int].len() && prev[q as int][k] == TileId(p);
                assert(adj[q as int].contains(prev[q as int][k2]));
            }
        }
    }
}

impl GraphBoard {
    /// The neighbour lists, indexed by tile id.
    pub closed spec fn view_adjacency(&self) -> Seq<Seq<TileId>> {
        Seq::new(self.neighbors@.len(), |i: int| self.neighbors@[i]@)
    }

    /// Builds from undirected edges; each edge is inserted in both directions in the order given.
    pub fn from_edges(tile_count: usize, edges: &[(u32, u32)]) -> (b: GraphBoard)
        requires
            edges_in_range(tile_count as nat, edges@),
            tile_count <= u32::MAX,
        ensures
            b.adjacency() == edges_adjacency(tile_count as nat, edges@),
            adjacency_ok(b.adjacency()),
    {
        let mut neighbors: Vec<Vec<TileId>> = Vec::new();
        let mut i: usize = 0;
        while i < tile_count
            invariant
                i <= tile_count,
                neighbors@.len() == i,
                forall|k: int| 0 <= k < i ==> (#[trigger] neighbors@[k])@ == Seq::<TileId>::empty(),
            decreases tile_count - i,
        {
            neighbors.push(Vec::new());
            i += 1;
        }
        let mut e: usize = 0;
        while e < edges.len()
            invariant
                e <= edges.len(),
                edges_in_range(tile_count as nat, edges@),
                neighbors@.len() == tile_count,
                Seq::new(neighbors@.len(), |k: int| neighbors@[k]@) == edges_adjacency(
                    tile_count as nat,
                    edges@.subrange(0, e as int),
                ),
            decreases edges.len() - e,
        {
            let (a, b) = edges[e];
            let ghost prev = Seq::new(neighbors@.len(), |k: int| neighbors@[k]@);
            let mut la = neighbors[a as usize].clone();
            la.push(TileId(b));
            neighbors.set(a as usize, la);
            let mut lb = neighbors[b as usize].clone();
            lb.push(TileId(a));
            neighbors.set(b as usize, lb);
            proof {
                let sub = edges@.subrange(0, e + 1);
                assert(sub.drop_last() =~= edges@.subrange(0, e as int));
                assert(sub.last() == edges@[e as int]);
                assert(Seq::new(neighbors@.len(), |k: int| neighbors@[k]@) =~= edges_adjacency(
                    tile_count as nat,
                    sub,
                ));
            }
            e += 1;
        }
        proof {
            assert(edges@.subrange(0, edges@.len() as int) =~= edges@);
            lemma_edges_adjacency(tile_count as nat, edges@);
        }
        GraphBoard { neighbors }
    }

    /// A centre tile `0` ringed by six tiles `1..=6`, each ring tile joined to its two ring
    /// neighbours: the smallest board on which every rule can be exercised.
    pub fn flower() -> (b: GraphBoard)
        ensures
            b.adjacency() == edges_adjacency(7, flower_edges()),
            adjacency_ok(b.adjacency()),
    {
        let mut edges: Vec<(u32, u32)> = Vec::new();
        let mut i: u32 = 1;
        while i <= 6
            invariant
                1 <= i <= 7,
                edges@ == flower_edges().subrange(0, 2 * (i - 1)),
            decreases 7 - i,
        {
            edges.push((0, i));
            edges.push((i, if i == 6 { 1 } else { i + 1 }));
            assert(edges@ =~= flower_edges().subrange(0, 2 * i));
            i += 1;
        }
        assert(edges@ =~= flower_edges());
        GraphBoard::from_edges(7, edges.as_slice())
    }
}

/// The flower's edges: spokes `0–i` and ring edges `i–(i mod 6 + 1)`, spoke first, for `i` in
/// `1..=6`.
pub open spec fn flower_edges() -> Seq<(u32, u32)> {
    Seq::new(12, |k: int| {
        let i = (k / 2 + 1) as u32;
        if k % 2 == 0 {
            (0u32, i)
        } else {
            (i, if i == 6 { 1u32 } else { (i + 1) as u32 })
        }
    })
}

impl Board for GraphBoard {
    open spec fn adjacency(&self) -> Seq<Seq<TileId>> {
        self.view_adjacency()
    }

    fn tile_count(&self) -> (n: usize) {
        self.neighbors.len()
    }

    fn neighbors(&self, id: TileId) -> (r: &[TileId]) {
        self.neighbors[id.index()].as_slice()
    }
}


// ---------------------------------------------------------------------------------------------
// Boards from triangle meshes

/// The ordered vertex pairs a triangle list yields: for every triangle, for each of its three
/// corners in turn, the corner with the next and then with the one after.
pub open spec fn triangle_pairs(tris: Seq<[u32; 3]>) -> Seq<(u32, u32)> {
    Seq::new(
        6 * tris.len(),
        |j: int|
            {
                let t = tris[j / 6]@;
                let r = j % 6;
                let k = r / 2;
                let other = if r % 2 == 0 { (k + 1) % 3 } else { (k + 2) % 3 };
                (t[k], t[other])
            },
    )
}

/// `adj` with `o` added to the neighbours of `v`, unless it is already there.
pub open spec fn add_neighbor(adj: Seq<Seq<TileId>>, v: u32, o: u32) -> Seq<Seq<TileId>> {
    if adj[v as int].contains(TileId(o)) {
        adj
    } else {
        adj.update(v as int, adj[v as int].push(TileId(o)))
    }
}

/// Neighbour lists from ordered pairs: each pair adds its second vertex to the first's list the
/// first time it comes.
pub open spec fn pairs_adjacency(count: nat, pairs: Seq<(u32, u32)>) -> Seq<Seq<TileId>>
    decreases pairs.len(),
{
    if pairs.len() == 0 {
        Seq::new(count, |i: int| Seq::<TileId>::empty())
    } else {
        let p = pairs.last();
        add_neighbor(pairs_adjacency(count, pairs.drop_last()), p.0, p.1)
    }
}

/// The neighbour lists of a triangle mesh's vertices: every vertex sharing a triangle with it,
/// once each, in the order the triangles bring them.
pub open spec fn triangle_adjacency(count: nat, tris: Seq<[u32; 3]>) -> Seq<Seq<TileId>> {
    pairs_adjacency(count, triangle_pairs(tris))
}

/// Every corner of every triangle is a vertex of the mesh.
pub open spec fn triangles_in_range(count: nat, tris: Seq<[u32; 3]>) -> bool {
    forall|i: int, k: int| 0 <= i < tris.len() && 0 <= k < 3 ==> (#[trigger] tris[i]@[k]) < count
}

/// A vertex's list holds exactly the second vertices of the pairs that start at it, and only
/// vertices of the mesh.
pub proof fn lemma_pairs_adjacency(count: nat, pairs: Seq<(u32, u32)>)
    requires
        forall|j: int| 0 <= j < pairs.len() ==> (#[trigger] pairs[j]).0 < count && pairs[j].1 < count,
    ensures
        pairs_adjacency(count, pairs).len() == count,
        forall|v: int, k: int|
            0 <= v < count && 0 <= k < pairs_adjacency(count, pairs)[v].len() ==> (#[trigger] pairs_adjacency(
                count,
                pairs,
            )[v][k]).0 < count,
        forall|v: u32, o: u32|
            v < count ==> (#[trigger] pairs_adjacency(count, pairs)[v as int].contains(TileId(o)) <==> exists|j: int|
                0 <= j < pairs.len() && (#[trigger] pairs[j]) == (v, o)),
    decreases pairs.len(),
{
    if pairs.len() > 0 {
        let init = pairs.drop_last();
        assert forall|j: int| 0 <= j < init.len() implies (#[trigger] init[j]).0 < count && init[j].1 < count by {
            assert(init[j] == pairs[j]);
        }
        lemma_pairs_adjacency(count, init);
        let prev = pairs_adjacency(count, init);
        let p = pairs.last();
        let adj = pairs_adjacency(count, pairs);
        assert(adj == add_neighbor(prev, p.0, p.1));
        assert(pairs[pairs.len() - 1] == p);
        assert forall|v: int, k: int| 0 <= v < count && 0 <= k < adj[v].len() implies (#[trigger] adj[v][k]).0
            < count by {
            if v == p.0 as int && !prev[v].contains(TileId(p.1)) {
                if k < prev[v].len() {
                    assert(adj[v][k] == prev[v][k]);
                }
            }
        }
        assert forall|v: u32, o: u32| v < count implies (#[trigger] adj[v as int].contains(TileId(o)) <==> exists|j: int|
            0 <= j < pairs.len() && (#[trigger] pairs[j]) == (v, o)) by {
            let here = prev[v as int].contains(TileId(o));
            if here {
                let j = choose|j: int| 0 <= j < init.len() && (#[trigger] init[j]) == (v, o);
                assert(pairs[j] == init[j]);
            }
            if exists|j: int| 0 <= j < pairs.len() && (#[trigger] pairs[j]) == (v, o) {
                let j = choose|j: int| 0 <= j < pairs.len() && (#[trigger] pairs[j]) == (v, o);
                if j < init.len() {
                    assert(init[j] == pairs[j]);
                }
            }
            if v == p.0 && !prev[v as int].contains(TileId(p.1)) {
                let l = prev[v as int].push(TileId(p.1));
                assert(adj[v as int] == l);
                if l.contains(TileId(o)) {
                    let k = choose|k: int| 0 <= k < l.len() && l[k] == TileId(o);
                    if k < prev[v as int].len() {
                        assert(prev[v as int][k] == TileId(o));
                    }
                }
                if prev[v as int].contains(TileId(o)) {
                    let k = choose|k: int| 0 <= k < prev[v as int].len() && prev[v as int][k] == TileId(o);
                    assert(l[k] == TileId(o));
                }
                if o == p.1 {
                    assert(l[prev[v as int].len() as int] == TileId(o));
                }
            }
        }
    }
}

/// Every pair a triangle list yields also comes reversed.
pub proof fn lemma_triangle_pairs_symmetric(tris: Seq<[u32; 3]>, j: int)
    requires
        0 <= j < triangle_pairs(tris).len(),
    ensures
        exists|i: int|
            0 <= i < triangle_pairs(tris).len() && #[trigger] triangle_pairs(tris)[i] == (
                triangle_pairs(tris)[j].1,
                triangle_pairs(tris)[j].0,
            ),
{
    let ps = triangle_pairs(tris);
    let ti = j / 6;
    let r = j % 6;
    let k = r / 2;
    let i = if r % 2 == 0 { 6 * ti + 2 * ((k + 1) % 3) + 1 } else { 6 * ti + 2 * ((k + 2) % 3) };
    assert(0 <= i < ps.len());
    assert(i / 6 == ti);
    assert(ps[i] == (ps[j].1, ps[j].0));
}

/// The neighbour lists of a triangle mesh are a usable adjacency: every neighbour is a vertex
/// and sharing a triangle goes both ways.
pub proof fn lemma_triangle_adjacency_ok(count: nat, tris: Seq<[u32; 3]>)
    requires
        triangles_in_range(count, tris),
        count <= u32::MAX,
    ensures
        triangle_adjacency(count, tris).len() == count,
        adjacency_ok(triangle_adjacency(count, tris)),
{
    let ps = triangle_pairs(tris);
    assert forall|j: int| 0 <= j < ps.len() implies (#[trigger] ps[j]).0 < count && ps[j].1 < count by {
        let t = tris[j / 6];
        let r = j % 6;
        let k = r / 2;
        assert(t@[k] < count);
        assert(t@[(k + 1) % 3] < count);
        assert(t@[(k + 2) % 3] < count);
    }
    lemma_pairs_adjacency(count, ps);
    let adj = triangle_adjacency(count, tris);
    assert forall|a: int, k: int| 0 <= a < adj.len() && 0 <= k < adj[a].len() implies adj[(#[trigger] adj[a][k]).0 as int].contains(
        TileId(a as u32),
    ) by {
        let o = adj[a][k].0;
        assert(adj[a as u32 as int].contains(TileId(o))) by {
            assert(adj[a][k] == TileId(o));
        }
        let j = choose|j: int| 0 <= j < ps.len() && (#[trigger] ps[j]) == (a as u32, o);
        lemma_triangle_pairs_symmetric(tris, j);
        let i = choose|i: int| 0 <= i < ps.len() && #[trigger] ps[i] == (ps[j].1, ps[j].0);
        assert(ps[i] == (o, a as u32));
    }
}

fn push_unique(nbr: &mut Vec<Vec<TileId>>, v: u32, o: u32)
    requires
        v < old(nbr)@.len(),
    ensures
        views_of(final(nbr)@) == add_neighbor(views_of(old(nbr)@), v, o),
        final(nbr)@.len() == old(nbr)@.len(),
{
    let list = &nbr[v as usize];
    assert(views_of(nbr@)[v as int] == list@);
    let mut i: usize = 0;
    while i < list.len()
        invariant
            i <= list@.len(),
            v < nbr@.len(),
            list@ == views_of(nbr@)[v as int],
            forall|k: int| 0 <= k < i ==> list@[k] != TileId(o),
        decreases list.len() - i,
    {
        if list[i] == TileId(o) {
            assert(views_of(nbr@)[v as int][i as int] == TileId(o));
            return;
        }
        i += 1;
    }
    let ghost before = views_of(nbr@);
    assert(!before[v as int].contains(TileId(o)));
    let mut l = nbr[v as usize].clone();
    assert(l@ =~= before[v as int]);
    l.push(TileId(o));
    nbr.set(v as usize, l);
    assert(views_of(nbr@) =~= before.update(v as int, before[v as int].push(TileId(o))));
}

/// The views of neighbour lists.
pub open spec fn views_of(v: Seq<Vec<TileId>>) -> Seq<Seq<TileId>> {
    Seq::new(v.len(), |i: int| v[i]@)
}

impl GraphBoard {
    /// The board of a triangle mesh with `count` vertices: each vertex is a tile, and its
    /// neighbours are the vertices it shares a triangle with, in the order the triangles bring
    /// them.
    pub fn from_triangles(count: usize, tris: &[[u32; 3]]) -> (b: GraphBoard)
        requires
            triangles_in_range(count as nat, tris@),
            count <= u32::MAX,
        ensures
            b.adjacency() == triangle_adjacency(count as nat, tris@),
            adjacency_ok(b.adjacency()),
    {
        let mut nbr: Vec<Vec<TileId>> = Vec::new();
        let mut i: usize = 0;
        while i < count
            invariant
                i <= count,
                nbr@.len() == i,
                forall|x: int| 0 <= x < i ==> (#[trigger] nbr@[x])@ == Seq::<TileId>::empty(),
            decreases count - i,
        {
            let e: Vec<TileId> = Vec::new();
            nbr.push(e);
            i += 1;
        }
        assert(views_of(nbr@) =~= Seq::new(count as nat, |x: int| Seq::<TileId>::empty()));
        let ghost ps = triangle_pairs(tris@);
        assert(ps.take(0) =~= Seq::<(u32, u32)>::empty());
        let mut ti: usize = 0;
        while ti < tris.len()
            invariant
                ti <= tris@.len(),
                count <= u32::MAX,
                triangles_in_range(count as nat, tris@),
                ps == triangle_pairs(tris@),
                views_of(nbr@) == pairs_adjacency(count as nat, ps.take(6 * ti)),
                nbr@.len() == count,
            decreases tris.len() - ti,
        {
            let t = tris[ti];
            let mut k: usize = 0;
            while k < 3
                invariant
                    ti < tris@.len(),
                    k <= 3,
                    t == tris@[ti as int],
                    triangles_in_range(count as nat, tris@),
                    ps == triangle_pairs(tris@),
                    views_of(nbr@) == pairs_adjacency(count as nat, ps.take(6 * ti + 2 * k)),
                    nbr@.len() == count,
                decreases 3 - k,
            {
                let v = t[k];
                let o1 = t[(k + 1) % 3];
                let o2 = t[(k + 2) % 3];
                assert(t@[k as int] < count);
                let ghost j: int = 6 * ti + 2 * k;
                assert(ps[j as int] == (v, o1)) by {
                    assert(j / 6 == ti);
                    assert(j % 6 == 2 * k);
                }
                assert(ps[j + 1] == (v, o2)) by {
                    assert((j + 1) / 6 == ti);
                    assert((j + 1) % 6 == 2 * k + 1);
                }
                push_unique(&mut nbr, v, o1);
                assert(ps.take(j + 1).drop_last() =~= ps.take(j));
                assert(ps.take(j + 1).last() == ps[j]);
                assert(views_of(nbr@) == pairs_adjacency(count as nat, ps.take(j + 1)));
                push_unique(&mut nbr, v, o2);
                assert(ps.take(j + 2).drop_last() =~= ps.take(j + 1));
                assert(ps.take(j + 2).last() == ps[j + 1]);
                assert(views_of(nbr@) == pairs_adjacency(count as nat, ps.take(j + 2)));
                k += 1;
            }
            ti += 1;
        }
        assert(ps.take(6 * tris@.len() as int) =~= ps);
        proof {
            lemma_triangle_adjacency_ok(count as nat, tris@);
        }
        let b = GraphBoard { neighbors: nbr };
        assert(b.adjacency() =~= views_of(b.neighbors@));
        b
    }
}

} // verus!
