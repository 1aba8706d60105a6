//! What holds of a mesh tree in every state and across a refinement step.

use crate::key::{child_of, MortonKey, MAX_LEVEL};
use crate::key_laws::{
    lemma_child, lemma_neighbors_are_adjacent, lemma_neighbors_symmetric, lemma_well_formed_fits,
};
use crate::mesh_tree::{expansion, is_edge, kept, kept_upto, MeshTreeView};
use vstd::prelude::*;

verus! {

/// An edge runs from the smaller key to the greater, and no edge is held
/// in both directions.
pub proof fn lemma_edges_one_way(tree: MeshTreeView, a: MortonKey, b: MortonKey)
    requires
        tree.well_formed(),
        tree.edges.contains((a, b)),
    ensures
        a.0 < b.0,
        !tree.edges.contains((b, a)),
        tree.cells.contains(a),
        tree.cells.contains(b),
{
    let i = choose|i: int| 0 <= i < tree.edges.len() && tree.edges[i] == (a, b);
    assert(is_edge(tree.cells, tree.edges[i].0, tree.edges[i].1));
    if tree.edges.contains((b, a)) {
        let j = choose|j: int| 0 <= j < tree.edges.len() && tree.edges[j] == (b, a);
        assert(is_edge(tree.cells, tree.edges[j].0, tree.edges[j].1));
    }
}

/// A key is among the kept of the first `n` candidates exactly if it is
/// one of them and marked.
pub proof fn lemma_kept_members(
    candidates: Seq<MortonKey>,
    keep: Seq<bool>,
    n: nat,
    key: MortonKey,
)
    requires
        n <= candidates.len(),
        n <= keep.len(),
    ensures
        kept_upto(candidates, keep, n).contains(key) <==> exists|j: int|
            0 <= j < n && keep[j] && candidates[j] == key,
    decreases n,
{
    if n > 0 {
        let j = n - 1;
        let before = kept_upto(candidates, keep, j as nat);
        let now = kept_upto(candidates, keep, n);
        lemma_kept_members(candidates, keep, j as nat, key);
        if now.contains(key) {
            let i = choose|i: int| 0 <= i < now.len() && now[i] == key;
            if i < before.len() {
                assert(before[i] == key);
                let w = choose|w: int| 0 <= w < j && keep[w] && candidates[w] == key;
                assert(0 <= w < n && keep[w] && candidates[w] == key);
            } else {
                assert(0 <= j < n && keep[j] && candidates[j] == key);
            }
        }
        if exists|w: int| 0 <= w < n && keep[w] && candidates[w] == key {
            let w = choose|w: int| 0 <= w < n && keep[w] && candidates[w] == key;
            if w < j {
                let i = choose|i: int| 0 <= i < before.len() && before[i] == key;
                assert(now[i] == key);
            } else {
                assert(now[now.len() - 1] == key);
            }
        }
    }
}

/// Refinement only descends: a cell that survives a refinement step is a
/// child of a cell that had survived before, and was marked.
pub proof fn lemma_refinement_descends(tree: MeshTreeView, keep: Seq<bool>, key: MortonKey)
    requires
        tree.well_formed(),
        tree.level < MAX_LEVEL,
        keep.len() == 8 * tree.cells.len(),
        kept(expansion(tree.cells), keep).contains(key),
    ensures
        expansion(tree.cells).contains(key),
        exists|i: int, c: u64|
            0 <= i < tree.cells.len() && c < 8 && keep[8 * i + c] && key.0 == 8 * (
            #[trigger] tree.cells[i]).0 + c && key.0 == #[trigger] child_of(tree.cells[i].0, c),
        tree.cells.contains(MortonKey((key.0 / 8) as u64)),
{
    let candidates = expansion(tree.cells);
    lemma_kept_members(candidates, keep, candidates.len(), key);
    let j = choose|j: int| 0 <= j < candidates.len() && keep[j] && candidates[j] == key;
    let i = j / 8;
    let c = (j % 8) as u64;
    let parent = tree.cells[i];
    lemma_well_formed_fits(parent);
    lemma_child(parent.0, c);
    assert(key.0 == child_of(tree.cells[i].0, c));
    assert(8 * i + c == j);
    assert(parent == MortonKey((key.0 / 8) as u64));
}

/// Refinement keeps at most the candidates: eight cells for each cell
/// that had survived before.
pub proof fn lemma_kept_length(candidates: Seq<MortonKey>, keep: Seq<bool>, n: nat)
    ensures
        kept_upto(candidates, keep, n).len() <= n,
    decreases n,
{
    if n > 0 {
        lemma_kept_length(candidates, keep, (n - 1) as nat);
    }
}

/// Once the edges are generated, every two surviving cells that are
/// neighbors are joined by the edge from the smaller key to the greater,
/// whichever of the two the neighborhood is taken of.
pub proof fn lemma_neighbors_are_joined(tree: MeshTreeView, k: MortonKey, m: MortonKey)
    requires
        tree.well_formed(),
        forall|a: MortonKey, b: MortonKey|
            tree.edges.contains((a, b)) <==> is_edge(tree.cells, a, b),
        tree.cells.contains(k),
        tree.cells.contains(m),
        k.spec_neighbors().contains(m),
    ensures
        k.0 != m.0,
        tree.edges.contains(
            if k.0 < m.0 {
                (k, m)
            } else {
                (m, k)
            },
        ),
{
    let i = choose|i: int| 0 <= i < tree.cells.len() && tree.cells[i] == k;
    let j = choose|j: int| 0 <= j < tree.cells.len() && tree.cells[j] == m;
    assert(tree.cells[i].well_formed() && tree.cells[j].well_formed());
    lemma_neighbors_are_adjacent(k, m);
    lemma_neighbors_symmetric(k, m);
    if k.0 < m.0 {
        assert(is_edge(tree.cells, k, m));
    } else {
        assert(is_edge(tree.cells, m, k));
    }
}

} // verus!
