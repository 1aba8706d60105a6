//! The cells of an octree that survive adaptive refinement, and the edges
//! between adjacent survivors.
//!
//! The tree keeps the keys of the cells; whoever drives it decides which
//! cells survive and keeps what belongs to a cell (its box, its vertex) by
//! the cell's position in the ascending list of keys.

use crate::key::{child_of, Key, MortonKey, MAX_LEVEL};
use crate::key_laws::{lemma_child, lemma_neighbors_distinct, lemma_well_formed_fits};
use crate::mesh_laws::lemma_kept_length;
use vstd::prelude::*;

verus! {

/// What a mesh tree holds.
pub struct MeshTreeView {
    /// The level of the surviving cells.
    pub level: nat,
    /// The surviving cells.
    pub cells: Seq<MortonKey>,
    /// The cells whose vertex has been generated.
    pub vertices: Seq<MortonKey>,
    /// The pairs of neighboring cells that are joined.
    pub edges: Seq<(MortonKey, MortonKey)>,
    /// Reserved: always empty.
    pub triangles: Seq<(MortonKey, MortonKey, MortonKey)>,
}

/// The keys of `cells` ascend strictly.
pub open spec fn ascending(cells: Seq<MortonKey>) -> bool {
    forall|i: int, j: int| 0 <= i < j < cells.len() ==> cells[i].0 < cells[j].0
}

/// `a` and `b` are cells of `cells` that are neighbors, `a` with the
/// smaller key.
pub open spec fn is_edge(cells: Seq<MortonKey>, a: MortonKey, b: MortonKey) -> bool {
    &&& cells.contains(a)
    &&& cells.contains(b)
    &&& a.0 < b.0
    &&& a.spec_neighbors().contains(b)
}

/// The eight children of each cell, in the order of the cells and, for
/// one cell, of the octants.
pub open spec fn expansion(cells: Seq<MortonKey>) -> Seq<MortonKey> {
    Seq::new(8 * cells.len(), |j: int| MortonKey(child_of(cells[j / 8].0, (j % 8) as u64)))
}

/// Those of the first `n` candidates that `keep` marks, in their order.
pub open spec fn kept_upto(candidates: Seq<MortonKey>, keep: Seq<bool>, n: nat) -> Seq<MortonKey>
    decreases n,
{
    if n == 0 {
        Seq::empty()
    } else {
        let before = kept_upto(candidates, keep, (n - 1) as nat);
        if keep[n - 1] {
            before.push(candidates[n - 1])
        } else {
            before
        }
    }
}

/// The candidates that `keep` marks, in their order.
pub open spec fn kept(candidates: Seq<MortonKey>, keep: Seq<bool>) -> Seq<MortonKey> {
    kept_upto(candidates, keep, candidates.len())
}

/// `key` is one of the first `n` entries of `keys`.
spec fn occurs_before(keys: Seq<MortonKey>, n: int, key: MortonKey) -> bool {
    exists|u: int| 0 <= u < n && u < keys.len() && keys[u] == key
}

/// The pair of `a` and `b` has been looked at by the time the walk over
/// the cells stands at the `t`-th neighbor of the `i`-th cell.
spec fn edge_seen(
    cells: Seq<MortonKey>,
    i: int,
    around: Seq<MortonKey>,
    t: int,
    a: MortonKey,
    b: MortonKey,
) -> bool {
    occurs_before(cells, i, a) || (0 <= i < cells.len() && a == cells[i] && occurs_before(
        around,
        t,
        b,
    ))
}

impl MeshTreeView {
    /// Every cell is a well-formed key of the tree's level, no cell occurs
    /// twice, and vertices and edges speak of surviving cells only.
    pub open spec fn well_formed(&self) -> bool {
        &&& self.level <= MAX_LEVEL
        &&& forall|i: int|
            0 <= i < self.cells.len() ==> (#[trigger] self.cells[i]).well_formed()
                && self.cells[i].spec_level() == self.level
        &&& ascending(self.cells)
        &&& (self.vertices.len() == 0 || self.vertices == self.cells)
        &&& forall|i: int|
            0 <= i < self.edges.len() ==> is_edge(
                self.cells,
                (#[trigger] self.edges[i]).0,
                self.edges[i].1,
            )
        &&& self.edges.no_duplicates()
        &&& self.triangles.len() == 0
    }
}

/// The surviving cells at one level of the subdivision, ascending by key,
/// with the cells that have a vertex and the edges between neighbors.
pub struct MeshTree {
    level: u32,
    cells: Vec<MortonKey>,
    vertices: Vec<MortonKey>,
    edges: Vec<(MortonKey, MortonKey)>,
    triangles: Vec<(MortonKey, MortonKey, MortonKey)>,
}

impl View for MeshTree {
    type V = MeshTreeView;

    closed spec fn view(&self) -> MeshTreeView {
        MeshTreeView {
            level: self.level as nat,
            cells: self.cells@,
            vertices: self.vertices@,
            edges: self.edges@,
            triangles: self.triangles@,
        }
    }
}

impl MeshTree {
    #[verifier::type_invariant]
    spec fn inv(&self) -> bool {
        self@.well_formed()
    }

    /// A tree at level 0: the root cell survives if `root_survives` says
    /// so.
    pub fn new(root_survives: bool) -> (tree: MeshTree)
        ensures
            tree@.well_formed(),
            tree@.level == 0,
            tree@.cells == if root_survives {
                seq![MortonKey(1)]
            } else {
                Seq::<MortonKey>::empty()
            },
            tree@.vertices.len() == 0,
            tree@.edges.len() == 0,
            tree@.triangles.len() == 0,
    {
        let mut cells: Vec<MortonKey> = Vec::new();
        if root_survives {
            cells.push(MortonKey::root_key());
        }
        MeshTree { level: 0, cells, vertices: Vec::new(), edges: Vec::new(), triangles: Vec::new() }
    }

    /// The level of the surviving cells.
    pub fn level(&self) -> (l: u32)
        ensures
            l == self@.level,
            self@.well_formed(),
    {
        proof {
            use_type_invariant(self);
        }
        self.level
    }

    /// The surviving cells, their keys ascending.
    pub fn cells(&self) -> (cells: &Vec<MortonKey>)
        ensures
            cells@ == self@.cells,
            self@.well_formed(),
    {
        proof {
            use_type_invariant(self);
        }
        &self.cells
    }

    /// The cells whose vertex has been generated: none, or all.
    pub fn vertex_keys(&self) -> (keys: &Vec<MortonKey>)
        ensures
            keys@ == self@.vertices,
            self@.well_formed(),
    {
        proof {
            use_type_invariant(self);
        }
        &self.vertices
    }

    /// The edges: pairs of neighboring cells, the smaller key first.
    pub fn edge_set(&self) -> (edges: &Vec<(MortonKey, MortonKey)>)
        ensures
            edges@ == self@.edges,
            self@.well_formed(),
    {
        proof {
            use_type_invariant(self);
        }
        &self.edges
    }

    /// The triangles: none are generated.
    pub fn triangles(&self) -> (triangles: &Vec<(MortonKey, MortonKey, MortonKey)>)
        ensures
            triangles@ == self@.triangles,
            triangles@.len() == 0,
    {
        proof {
            use_type_invariant(self);
        }
        &self.triangles
    }

    /// Goes one level down: of the eight children of each surviving cell,
    /// those survive that `keep` marks. `keep` holds the marks of the
    /// first cell's children, octant by octant, then those of the second
    /// cell's, and so on. Vertices and edges are dropped.
    pub fn next_level(&mut self, keep: &Vec<bool>)
        requires
            old(self)@.level < MAX_LEVEL,
            keep@.len() == 8 * old(self)@.cells.len(),
        ensures
            final(self)@.well_formed(),
            final(self)@.level == old(self)@.level + 1,
            final(self)@.cells == kept(expansion(old(self)@.cells), keep@),
            final(self)@.cells.len() <= 8 * old(self)@.cells.len(),
            final(self)@.vertices.len() == 0,
            final(self)@.edges.len() == 0,
            final(self)@.triangles.len() == 0,
    {
        proof {
            use_type_invariant(&*self);
        }
        let ghost cells = self.cells@;
        let ghost level = self.level as nat;
        let ghost candidates = expansion(cells);
        let n: usize = self.cells.len();
        let marks: usize = keep.len();
        let mut next: Vec<MortonKey> = Vec::new();
        let mut i: usize = 0;
        while i < n
            invariant
                i <= n,
                n == cells.len(),
                cells == self.cells@,
                level == self.level,
                level < MAX_LEVEL,
                self@.well_formed(),
                candidates == expansion(cells),
                marks == keep@.len() == 8 * n,
                next@ == kept_upto(candidates, keep@, (8 * i) as nat),
                ascending(next@),
                forall|t: int|
                    0 <= t < next@.len() ==> (#[trigger] next@[t]).well_formed()
                        && next@[t].spec_level() == level + 1,
                forall|t: int, u: int|
                    0 <= t < next@.len() && i <= u < n ==> (#[trigger] next@[t]).0 < 8
                        * (#[trigger] cells[u]).0,
            decreases n - i,
        {
            let parent: MortonKey = self.cells[i];
            proof {
                lemma_well_formed_fits(parent);
            }
            let mut c: u64 = 0;
            while c < 8
                invariant
                    i < n,
                    c <= 8,
                    n == cells.len(),
                    cells == self.cells@,
                    parent == cells[i as int],
                    parent.well_formed(),
                    parent.spec_level() == level,
                    level < MAX_LEVEL,
                    parent.0 < 0x2_0000_0000_0000,
                    ascending(cells),
                    candidates == expansion(cells),
                    marks == keep@.len() == 8 * n,
                    next@ == kept_upto(candidates, keep@, (8 * i + c) as nat),
                    ascending(next@),
                    forall|t: int|
                        0 <= t < next@.len() ==> (#[trigger] next@[t]).well_formed()
                            && next@[t].spec_level() == level + 1,
                    forall|t: int| 0 <= t < next@.len() ==> (#[trigger] next@[t]).0 < 8 * parent.0 + c,
                decreases 8 - c,
            {
                let child: MortonKey = parent.child_key(c);
                let at: usize = 8 * i + c as usize;
                proof {
                    lemma_child(parent.0, c);
                    assert(at as int / 8 == i && at as int % 8 == c);
                    assert(candidates[at as int] == child);
                }
                if keep[at] {
                    next.push(child);
                }
                c = c + 1;
            }
            proof {
                assert forall|t: int, u: int| 0 <= t < next@.len() && i + 1 <= u < n implies (
                #[trigger] next@[t]).0 < 8 * (#[trigger] cells[u]).0 by {
                    assert(cells[i as int].0 < cells[u].0);
                }
            }
            i = i + 1;
        }
        proof {
            lemma_kept_length(candidates, keep@, candidates.len());
        }
        let level: u32 = self.level + 1;
        *self = MeshTree {
            level,
            cells: next,
            vertices: Vec::new(),
            edges: Vec::new(),
            triangles: Vec::new(),
        };
    }

    /// Gives every surviving cell a vertex.
    pub fn generate_vertex_map(&mut self)
        ensures
            final(self)@.well_formed(),
            final(self)@.vertices == old(self)@.cells,
            final(self)@.level == old(self)@.level,
            final(self)@.cells == old(self)@.cells,
            final(self)@.edges == old(self)@.edges,
            final(self)@.triangles == old(self)@.triangles,
    {
        proof {
            use_type_invariant(&*self);
        }
        let n: usize = self.cells.len();
        let mut keys: Vec<MortonKey> = Vec::new();
        let mut i: usize = 0;
        while i < n
            invariant
                i <= n,
                n == self.cells@.len(),
                keys@ == self.cells@.take(i as int),
            decreases n - i,
        {
            keys.push(self.cells[i]);
            proof {
                assert(self.cells@.take(i + 1) =~= self.cells@.take(i as int).push(
                    self.cells@[i as int],
                ));
            }
            i = i + 1;
        }
        proof {
            assert(self.cells@.take(n as int) =~= self.cells@);
        }
        self.vertices = keys;
    }

    /// Joins every two surviving cells that are neighbors by an edge, the
    /// smaller key first.
    pub fn generate_edge_set(&mut self)
        ensures
            final(self)@.well_formed(),
            forall|a: MortonKey, b: MortonKey|
                final(self)@.edges.contains((a, b)) <==> is_edge(final(self)@.cells, a, b),
            final(self)@.level == old(self)@.level,
            final(self)@.cells == old(self)@.cells,
            final(self)@.vertices == old(self)@.vertices,
            final(self)@.triangles == old(self)@.triangles,
    {
        proof {
            use_type_invariant(&*self);
        }
        let ghost cells = self.cells@;
        let n: usize = self.cells.len();
        let mut edges: Vec<(MortonKey, MortonKey)> = Vec::new();
        let mut i: usize = 0;
        while i < n
            invariant
                i <= n,
                n == cells.len(),
                cells == self.cells@,
                self@.well_formed(),
                forall|w: int|
                    0 <= w < edges@.len() ==> is_edge(cells, (#[trigger] edges@[w]).0, edges@[w].1)
                        && occurs_before(cells, i as int, edges@[w].0),
                forall|a: MortonKey, b: MortonKey| #[trigger]
                    is_edge(cells, a, b) && occurs_before(cells, i as int, a) ==> edges@.contains(
                        (a, b),
                    ),
                edges@.no_duplicates(),
            decreases n - i,
        {
            let key: MortonKey = self.cells[i];
            let around: Vec<MortonKey> = key.neighbors();
            proof {
                lemma_neighbors_distinct(key);
                assert forall|w: int| 0 <= w < edges@.len() implies edge_seen(
                    cells,
                    i as int,
                    around@,
                    0,
                    (#[trigger] edges@[w]).0,
                    edges@[w].1,
                ) by {
                    assert(occurs_before(cells, i as int, edges@[w].0));
                }
            }
            let mut t: usize = 0;
            while t < around.len()
                invariant
                    i < n,
                    t <= around@.len(),
                    n == cells.len(),
                    cells == self.cells@,
                    ascending(cells),
                    key == cells[i as int],
                    around@ == key.spec_neighbors(),
                    around@.no_duplicates(),
                    forall|w: int|
                        0 <= w < edges@.len() ==> is_edge(
                            cells,
                            (#[trigger] edges@[w]).0,
                            edges@[w].1,
                        ) && edge_seen(cells, i as int, around@, t as int, edges@[w].0, edges@[w].1),
                    forall|a: MortonKey, b: MortonKey| #[trigger]
                        is_edge(cells, a, b) && edge_seen(cells, i as int, around@, t as int, a, b)
                            ==> edges@.contains((a, b)),
                    edges@.no_duplicates(),
                decreases around@.len() - t,
            {
                let m: MortonKey = around[t];
                let ghost before = edges@;
                let joins: bool = m.0 > key.0 && find(&self.cells, m).is_some();
                if joins {
                    proof {
                        assert(cells.contains(key));
                        assert(is_edge(cells, key, m));
                        if before.contains((key, m)) {
                            let w = choose|w: int| 0 <= w < before.len() && before[w] == (key, m);
                            assert(edge_seen(cells, i as int, around@, t as int, before[w].0, before[w].1));
                            if occurs_before(cells, i as int, key) {
                                let u = choose|u: int| 0 <= u < i && u < cells.len() && cells[u] == key;
                                assert(cells[u].0 < cells[i as int].0);
                            } else {
                                let u = choose|u: int|
                                    0 <= u < t && u < around@.len() && around@[u] == m;
                                assert(around@[u] == around@[t as int]);
                            }
                        }
                    }
                    edges.push((key, m));
                }
                proof {
                    assert forall|w: int| 0 <= w < edges@.len() implies is_edge(
                        cells,
                        (#[trigger] edges@[w]).0,
                        edges@[w].1,
                    ) && edge_seen(cells, i as int, around@, t + 1, edges@[w].0, edges@[w].1) by {
                        if w < before.len() {
                            assert(edges@[w] == before[w]);
                            assert(edge_seen(cells, i as int, around@, t as int, before[w].0, before[w].1));
                            if !occurs_before(cells, i as int, before[w].0) {
                                let u = choose|u: int|
                                    0 <= u < t && u < around@.len() && around@[u] == before[w].1;
                                assert(0 <= u < t + 1 && around@[u] == before[w].1);
                            }
                        } else {
                            assert(edges@[w] == (key, m));
                            assert(0 <= t < t + 1 && around@[t as int] == m);
                        }
                    }
                    assert forall|a: MortonKey, b: MortonKey| #[trigger]
                        is_edge(cells, a, b) && edge_seen(
                            cells,
                            i as int,
                            around@,
                            t + 1,
                            a,
                            b,
                        ) implies edges@.contains((a, b)) by {
                        if edge_seen(cells, i as int, around@, t as int, a, b) {
                            assert(before.contains((a, b)));
                            let w = choose|w: int| 0 <= w < before.len() && before[w] == (a, b);
                            assert(edges@[w] == (a, b));
                        } else {
                            let u = choose|u: int|
                                0 <= u < t + 1 && u < around@.len() && around@[u] == b;
                            if u < t {
                                assert(occurs_before(around@, t as int, b));
                            }
                            assert(u == t && a == key && b == m);
                            assert(joins);
                            assert(edges@[edges@.len() - 1] == (a, b));
                        }
                    }
                }
                t = t + 1;
            }
            proof {
                assert forall|w: int| 0 <= w < edges@.len() implies occurs_before(
                    cells,
                    i + 1,
                    (#[trigger] edges@[w]).0,
                ) by {
                    assert(edge_seen(cells, i as int, around@, t as int, edges@[w].0, edges@[w].1));
                    if occurs_before(cells, i as int, edges@[w].0) {
                        let u = choose|u: int|
                            0 <= u < i && u < cells.len() && cells[u] == edges@[w].0;
                        assert(0 <= u < i + 1 && cells[u] == edges@[w].0);
                    } else {
                        assert(0 <= i < i + 1 && cells[i as int] == edges@[w].0);
                    }
                }
                assert forall|a: MortonKey, b: MortonKey| #[trigger]
                    is_edge(cells, a, b) && occurs_before(
                        cells,
                        i + 1,
                        a,
                    ) implies edges@.contains((a, b)) by {
                    let u = choose|u: int| 0 <= u < i + 1 && u < cells.len() && cells[u] == a;
                    if u < i {
                        assert(occurs_before(cells, i as int, a));
                    } else {
                        let v = choose|v: int| 0 <= v < around@.len() && around@[v] == b;
                        assert(occurs_before(around@, t as int, b));
                    }
                    assert(edge_seen(cells, i as int, around@, t as int, a, b));
                }
            }
            i = i + 1;
        }
        proof {
            assert forall|a: MortonKey, b: MortonKey|
                edges@.contains((a, b)) <==> is_edge(cells, a, b) by {
                if edges@.contains((a, b)) {
                    let w = choose|w: int| 0 <= w < edges@.len() && edges@[w] == (a, b);
                    assert(is_edge(cells, edges@[w].0, edges@[w].1));
                }
                if is_edge(cells, a, b) {
                    let u = choose|u: int| 0 <= u < cells.len() && cells[u] == a;
                    assert(occurs_before(cells, n as int, a));
                }
            }
        }
        self.edges = edges;
    }

    /// The neighbors of the `i`-th vertex that have a vertex themselves, by
    /// their positions among the vertices: what one smoothing step reads
    /// to move that vertex.
    pub fn vertex_neighbors(&self, i: usize) -> (out: Vec<usize>)
        requires
            i < self@.vertices.len(),
        ensures
            self@.well_formed(),
            forall|j: usize|
                out@.contains(j) <==> j < self@.vertices.len()
                    && self@.vertices[i as int].spec_neighbors().contains(
                    #[trigger] self@.vertices[j as int],
                ),
            out@.no_duplicates(),
    {
        proof {
            use_type_invariant(self);
        }
        let key: MortonKey = self.vertices[i];
        let around: Vec<MortonKey> = key.neighbors();
        let ghost vertices = self.vertices@;
        proof {
            lemma_neighbors_distinct(key);
        }
        let mut out: Vec<usize> = Vec::new();
        let mut t: usize = 0;
        while t < around.len()
            invariant
                t <= around@.len(),
                vertices == self.vertices@,
                ascending(vertices),
                around@.no_duplicates(),
                forall|w: int|
                    0 <= w < out@.len() ==> (#[trigger] out@[w]) < vertices.len()
                        && occurs_before(around@, t as int, vertices[out@[w] as int]),
                forall|j: usize|
                    j < vertices.len() && #[trigger] occurs_before(
                        around@,
                        t as int,
                        vertices[j as int],
                    ) ==> out@.contains(j),
                out@.no_duplicates(),
            decreases around@.len() - t,
        {
            let m: MortonKey = around[t];
            match find(&self.vertices, m) {
                Some(j) => {
                    proof {
                        if out@.contains(j) {
                            let w = choose|w: int| 0 <= w < out@.len() && out@[w] == j;
                            assert(occurs_before(around@, t as int, vertices[out@[w] as int]));
                        }
                        let ghost before = out@;
                        assert forall|w: int| 0 <= w < before.len() implies occurs_before(
                            around@,
                            t + 1,
                            vertices[(#[trigger] before[w]) as int],
                        ) by {
                            let u = choose|u: int|
                                0 <= u < t && u < around@.len() && around@[u]
                                    == vertices[before[w] as int];
                            assert(0 <= u < t + 1 && around@[u] == vertices[before[w] as int]);
                        }
                        assert(occurs_before(around@, t + 1, vertices[j as int])) by {
                            assert(around@[t as int] == vertices[j as int]);
                        }
                    }
                    let ghost before = out@;
                    out.push(j);
                    proof {
                        assert forall|j2: usize|
                            j2 < vertices.len() && #[trigger] occurs_before(
                                around@,
                                t + 1,
                                vertices[j2 as int],
                            ) implies out@.contains(j2) by {
                            let u = choose|u: int|
                                0 <= u < t + 1 && u < around@.len() && around@[u]
                                    == vertices[j2 as int];
                            if u < t {
                                assert(occurs_before(around@, t as int, vertices[j2 as int]));
                                assert(before.contains(j2));
                                let w = choose|w: int| 0 <= w < before.len() && before[w] == j2;
                                assert(out@[w] == j2);
                            } else {
                                assert(vertices[j2 as int] == vertices[j as int]);
                                assert(j2 == j);
                                assert(out@[out@.len() - 1] == j);
                            }
                        }
                    }
                },
                None => {
                    proof {
                        assert forall|w: int| 0 <= w < out@.len() implies occurs_before(
                            around@,
                            t + 1,
                            vertices[(#[trigger] out@[w]) as int],
                        ) by {
                            let u = choose|u: int|
                                0 <= u < t && u < around@.len() && around@[u]
                                    == vertices[out@[w] as int];
                            assert(0 <= u < t + 1 && around@[u] == vertices[out@[w] as int]);
                        }
                        assert forall|j2: usize|
                            j2 < vertices.len() && #[trigger] occurs_before(
                                around@,
                                t + 1,
                                vertices[j2 as int],
                            ) implies out@.contains(j2) by {
                            let u = choose|u: int|
                                0 <= u < t + 1 && u < around@.len() && around@[u]
                                    == vertices[j2 as int];
                            if u == t {
                                assert(vertices.contains(m));
                            } else {
                                assert(occurs_before(around@, t as int, vertices[j2 as int]));
                            }
                        }
                    }
                },
            }
            t = t + 1;
        }
        proof {
            assert forall|j: usize|
                out@.contains(j) <==> j < vertices.len() && key.spec_neighbors().contains(
                    #[trigger] vertices[j as int],
                ) by {
                if out@.contains(j) {
                    let w = choose|w: int| 0 <= w < out@.len() && out@[w] == j;
                    assert(occurs_before(around@, t as int, vertices[out@[w] as int]));
                }
                if j < vertices.len() && key.spec_neighbors().contains(vertices[j as int]) {
                    let u = choose|u: int|
                        0 <= u < around@.len() && around@[u] == vertices[j as int];
                    assert(occurs_before(around@, t as int, vertices[j as int]));
                }
            }
        }
        out
    }

    /// Where `key` stands among the surviving cells, if it is one.
    pub fn position(&self, key: MortonKey) -> (at: Option<usize>)
        ensures
            match at {
                Some(i) => i < self@.cells.len() && self@.cells[i as int] == key,
                None => !self@.cells.contains(key),
            },
    {
        proof {
            use_type_invariant(self);
        }
        find(&self.cells, key)
    }
}

/// Binary search for `key` in an ascending list.
fn find(cells: &Vec<MortonKey>, key: MortonKey) -> (at: Option<usize>)
    requires
        ascending(cells@),
    ensures
        match at {
            Some(i) => i < cells@.len() && cells@[i as int] == key,
            None => !cells@.contains(key),
        },
{
    let mut lo: usize = 0;
    let mut hi: usize = cells.len();
    while lo < hi
        invariant
            lo <= hi <= cells@.len(),
            ascending(cells@),
            forall|i: int| 0 <= i < lo ==> cells@[i].0 < key.0,
            forall|i: int| hi <= i < cells@.len() ==> key.0 < cells@[i].0,
        decreases hi - lo,
    {
        let mid: usize = lo + (hi - lo) / 2;
        let probe: MortonKey = cells[mid];
        if probe.0 == key.0 {
            return Some(mid);
        } else if probe.0 < key.0 {
            lo = mid + 1;
        } else {
            hi = mid;
        }
    }
    None
}

} // verus!
