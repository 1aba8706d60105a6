use implicit_mesh::key::{in_upper_half, Key, MortonKey};
use implicit_mesh::mesh_tree::MeshTree;

/// An axis-aligned box: lower and upper bound along x, y and z.
type Cube = [(f64, f64); 3];

fn octant(cube: &Cube, child: u64) -> Cube {
    let mut out = *cube;
    for axis in 0..3 {
        let (lo, hi) = cube[axis];
        let mid = (lo + hi) / 2.0;
        out[axis] = if in_upper_half(child, axis) { (mid, hi) } else { (lo, mid) };
    }
    out
}

/// Enclosure of the square of the numbers of `[lo, hi]`: none for a base
/// that is negative throughout, and of the part from zero on otherwise.
fn square(lo: f64, hi: f64) -> Option<(f64, f64)> {
    if hi < 0.0 {
        return None;
    }
    let lo = if lo < 0.0 { 0.0 } else { lo };
    let a = lo * lo;
    let b = hi * hi;
    Some((a.min(b), a.max(b)))
}

/// Whether the enclosure of x^2 + y^2 + z^2 - 30 over the cube has zero
/// strictly inside.
fn sphere_may_cross(cube: &Cube) -> bool {
    let mut min = -30.0;
    let mut max = -30.0;
    for axis in 0..3 {
        match square(cube[axis].0, cube[axis].1) {
            Some((a, b)) => {
                min += a;
                max += b;
            }
            None => return false,
        }
    }
    min < 0.0 && 0.0 < max
}

fn refine(tree: &mut MeshTree, cubes: &mut Vec<Cube>, survives: fn(&Cube) -> bool) {
    let mut keep = Vec::new();
    let mut next = Vec::new();
    for cube in cubes.iter() {
        for child in 0..8u64 {
            let part = octant(cube, child);
            let stays = survives(&part);
            keep.push(stays);
            if stays {
                next.push(part);
            }
        }
    }
    tree.next_level(&keep);
    *cubes = next;
}

fn everything(_cube: &Cube) -> bool {
    true
}

fn upper_x_half(cube: &Cube) -> bool {
    cube[0].0 >= 0.0
}

#[test]
fn new_tree_holds_the_root_if_it_survives() {
    let tree = MeshTree::new(true);
    assert_eq!(tree.level(), 0);
    assert_eq!(tree.cells(), &vec![MortonKey(1)]);
    assert!(tree.vertex_keys().is_empty());
    assert!(tree.edge_set().is_empty());
    assert!(tree.triangles().is_empty());

    let tree = MeshTree::new(false);
    assert_eq!(tree.level(), 0);
    assert!(tree.cells().is_empty());
    assert!(tree.vertex_keys().is_empty());
    assert!(tree.edge_set().is_empty());
}

#[test]
fn next_level_keeps_the_marked_children_in_order() {
    let mut tree = MeshTree::new(true);
    let keep = vec![true, false, false, true, false, false, true, true];
    tree.next_level(&keep);
    assert_eq!(tree.level(), 1);
    assert_eq!(
        tree.cells(),
        &vec![MortonKey(0o10), MortonKey(0o13), MortonKey(0o16), MortonKey(0o17)]
    );

    let mut keep = vec![false; 32];
    keep[0] = true; // child 0 of 0o10
    keep[8 + 7] = true; // child 7 of 0o13
    keep[16 + 2] = true; // child 2 of 0o16
    keep[16 + 3] = true; // child 3 of 0o16
    tree.next_level(&keep);
    assert_eq!(tree.level(), 2);
    assert_eq!(
        tree.cells(),
        &vec![MortonKey(0o100), MortonKey(0o137), MortonKey(0o162), MortonKey(0o163)]
    );
}

#[test]
fn next_level_drops_vertices_and_edges() {
    let mut tree = MeshTree::new(true);
    tree.next_level(&vec![true; 8]);
    tree.generate_vertex_map();
    tree.generate_edge_set();
    assert_eq!(tree.vertex_keys().len(), 8);
    assert_eq!(tree.edge_set().len(), 28);
    tree.next_level(&vec![false; 64]);
    assert_eq!(tree.level(), 2);
    assert!(tree.cells().is_empty());
    assert!(tree.vertex_keys().is_empty());
    assert!(tree.edge_set().is_empty());
    assert!(tree.triangles().is_empty());
}

#[test]
fn an_empty_tree_stays_empty() {
    let mut tree = MeshTree::new(false);
    for level in 1..=16u32 {
        tree.next_level(&Vec::new());
        assert_eq!(tree.level(), level);
        assert!(tree.cells().is_empty());
    }
    tree.generate_vertex_map();
    tree.generate_edge_set();
    assert!(tree.vertex_keys().is_empty());
    assert!(tree.edge_set().is_empty());
}

#[test]
fn refinement_only_descends() {
    let mut tree = MeshTree::new(true);
    let mut cubes: Vec<Cube> = vec![[(-20.0, 20.0); 3]];
    for _ in 0..5 {
        let before = tree.cells().clone();
        refine(&mut tree, &mut cubes, sphere_may_cross);
        assert_eq!(tree.cells().len(), cubes.len());
        for key in tree.cells() {
            assert!(key.is_well_formed());
            assert_eq!(key.level() as u32, tree.level());
            assert!(before.contains(&MortonKey(key.0 >> 3)));
        }
        for pair in tree.cells().windows(2) {
            assert!(pair[0] < pair[1]);
        }
    }
}

#[test]
fn vertices_are_the_surviving_cells() {
    let mut tree = MeshTree::new(true);
    let mut cubes: Vec<Cube> = vec![[(-1.0, 1.0); 3]];
    refine(&mut tree, &mut cubes, upper_x_half);
    refine(&mut tree, &mut cubes, upper_x_half);
    assert_eq!(tree.cells().len(), 32);
    assert!(tree.vertex_keys().is_empty());
    tree.generate_vertex_map();
    assert_eq!(tree.vertex_keys(), tree.cells());
    tree.generate_vertex_map();
    assert_eq!(tree.vertex_keys(), tree.cells());
}

#[test]
fn edges_join_neighbors_smaller_key_first() {
    let mut tree = MeshTree::new(true);
    let mut cubes: Vec<Cube> = vec![[(-20.0, 20.0); 3]];
    for _ in 0..4 {
        refine(&mut tree, &mut cubes, sphere_may_cross);
    }
    tree.generate_edge_set();
    let cells = tree.cells();
    let edges = tree.edge_set();
    assert!(!edges.is_empty());
    for (i, (a, b)) in edges.iter().enumerate() {
        assert!(a < b);
        assert!(cells.contains(a));
        assert!(cells.contains(b));
        assert!(a.neighbors().contains(b));
        assert!(!edges.contains(&(*b, *a)));
        assert!(!edges[..i].contains(&(*a, *b)));
    }
    let mut expected = 0;
    for a in cells {
        for b in cells {
            if a < b && a.neighbors().contains(b) {
                expected += 1;
                assert!(edges.contains(&(*a, *b)));
            }
        }
    }
    assert_eq!(edges.len(), expected);
}

#[test]
fn edges_of_the_full_first_level() {
    let mut tree = MeshTree::new(true);
    tree.next_level(&vec![true; 8]);
    tree.generate_edge_set();
    assert_eq!(tree.edge_set().len(), 28);
    assert_eq!(tree.edge_set()[0], (MortonKey(0o10), MortonKey(0o11)));
    tree.generate_edge_set();
    assert_eq!(tree.edge_set().len(), 28);
}

#[test]
fn edges_of_two_cells_apart_are_none() {
    let mut tree = MeshTree::new(true);
    tree.next_level(&vec![true, false, false, false, false, false, false, true]);
    // children 0 of 0o10 and 7 of 0o17: opposite corners of the root
    let mut keep = vec![false; 16];
    keep[0] = true;
    keep[15] = true;
    tree.next_level(&keep);
    assert_eq!(tree.cells(), &vec![MortonKey(0o100), MortonKey(0o177)]);
    tree.generate_edge_set();
    assert!(tree.edge_set().is_empty());
}

#[test]
fn position_finds_surviving_cells_only() {
    let mut tree = MeshTree::new(true);
    tree.next_level(&vec![true, false, true, false, true, false, true, false]);
    assert_eq!(tree.position(MortonKey(0o10)), Some(0));
    assert_eq!(tree.position(MortonKey(0o12)), Some(1));
    assert_eq!(tree.position(MortonKey(0o14)), Some(2));
    assert_eq!(tree.position(MortonKey(0o16)), Some(3));
    assert_eq!(tree.position(MortonKey(0o11)), None);
    assert_eq!(tree.position(MortonKey(0o17)), None);
    assert_eq!(tree.position(MortonKey(1)), None);
    assert_eq!(tree.position(MortonKey(0o100)), None);
}

#[test]
fn vertex_neighbors_are_the_neighbors_with_a_vertex() {
    let mut tree = MeshTree::new(true);
    let mut cubes: Vec<Cube> = vec![[(-20.0, 20.0); 3]];
    for _ in 0..4 {
        refine(&mut tree, &mut cubes, sphere_may_cross);
    }
    tree.generate_vertex_map();
    let keys = tree.vertex_keys().clone();
    for (i, key) in keys.iter().enumerate() {
        let found = tree.vertex_neighbors(i);
        let around = key.neighbors();
        for j in 0..keys.len() {
            assert_eq!(found.contains(&j), around.contains(&keys[j]));
        }
        for (w, j) in found.iter().enumerate() {
            assert!(!found[..w].contains(j));
        }
    }
}

#[test]
fn vertex_neighbors_of_a_lone_vertex_are_none() {
    let mut tree = MeshTree::new(true);
    tree.generate_vertex_map();
    assert_eq!(tree.vertex_keys(), &vec![MortonKey(1)]);
    assert!(tree.vertex_neighbors(0).is_empty());
}

#[test]
fn child_cubes_follow_the_keys() {
    // the cube that the octants lead to is the cube that the key's
    // coordinates name, and neighbors share a face, an edge or a corner
    let root: Cube = [(0.0, 16.0), (-8.0, 8.0), (100.0, 116.0)];
    let mut tree = MeshTree::new(true);
    let mut cubes = vec![root];
    for _ in 0..3 {
        refine(&mut tree, &mut cubes, everything);
    }
    assert_eq!(tree.cells().len(), 512);
    let width = 2.0;
    for (i, key) in tree.cells().iter().enumerate() {
        for axis in 0..3 {
            let lo = root[axis].0 + width * key.get_component(axis) as f64;
            assert_eq!(cubes[i][axis], (lo, lo + width));
        }
        for m in key.neighbors() {
            let j = tree.position(m).unwrap();
            for axis in 0..3 {
                let gap = (cubes[i][axis].0 - cubes[j][axis].0).abs();
                assert!(gap == 0.0 || gap == width);
            }
        }
    }
}

#[test]
fn sphere_cells_stay_near_the_sphere() {
    let mut tree = MeshTree::new(sphere_may_cross(&[(-20.0, 20.0); 3]));
    let mut cubes: Vec<Cube> = vec![[(-20.0, 20.0); 3]];
    assert_eq!(tree.cells().len(), 1);
    for _ in 0..8 {
        refine(&mut tree, &mut cubes, sphere_may_cross);
    }
    assert_eq!(tree.level(), 8);
    assert_eq!(tree.cells().len(), 3112);
    tree.generate_vertex_map();
    assert_eq!(tree.vertex_keys().len(), 3112);
    let edge = 40.0 / 256.0;
    let radius = 30.0f64.sqrt();
    for cube in &cubes {
        let mut square_sum = 0.0;
        for axis in 0..3 {
            let center = (cube[axis].0 + cube[axis].1) / 2.0;
            square_sum += center * center;
        }
        assert!((square_sum.sqrt() - radius).abs() <= 2.0 * edge);
    }
    tree.generate_edge_set();
    for (a, b) in tree.edge_set() {
        assert!(a < b);
    }
}

#[test]
fn relaxed_vertices_stay_in_their_cubes() {
    let mut tree = MeshTree::new(true);
    let mut cubes: Vec<Cube> = vec![[(-20.0, 20.0); 3]];
    for _ in 0..5 {
        refine(&mut tree, &mut cubes, sphere_may_cross);
    }
    tree.generate_vertex_map();
    let mut vertices: Vec<[f64; 3]> = cubes
        .iter()
        .map(|cube| {
            [
                (cube[0].0 + cube[0].1) / 2.0,
                (cube[1].0 + cube[1].1) / 2.0,
                (cube[2].0 + cube[2].1) / 2.0,
            ]
        })
        .collect();
    for _ in 0..3 {
        let mut moved = Vec::new();
        let mut any_moved = false;
        for (i, vertex) in vertices.iter().enumerate() {
            let around = tree.vertex_neighbors(i);
            if around.is_empty() {
                moved.push(*vertex);
                continue;
            }
            let mut next = [0.0; 3];
            for axis in 0..3 {
                let sum: f64 = around.iter().map(|j| vertices[*j][axis]).sum();
                let average = sum / around.len() as f64;
                let target = vertex[axis] + 0.5 * (average - vertex[axis]);
                next[axis] = target.max(cubes[i][axis].0).min(cubes[i][axis].1);
                any_moved = any_moved || next[axis] != vertex[axis];
            }
            moved.push(next);
        }
        assert!(any_moved);
        vertices = moved;
        for (i, vertex) in vertices.iter().enumerate() {
            for axis in 0..3 {
                assert!(cubes[i][axis].0 <= vertex[axis] && vertex[axis] <= cubes[i][axis].1);
            }
        }
    }
}
