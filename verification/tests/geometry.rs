use blackhole_sim::grid::{grid_offsets, on_central_plane};
use blackhole_sim::mesh::{ring_indices, sphere_indices};

#[test]
fn grid_offsets_are_centred() {
    let g = grid_offsets(3);
    assert_eq!(g.len(), 27);
    assert_eq!(g[0], (-2, -2, -2));
    assert_eq!(g[13], (0, 0, 0));
    assert_eq!(g[26], (2, 2, 2));
    // index 1*9 + 2*3 + 0
    assert_eq!(g[15], (0, 2, -2));
}

#[test]
fn grid_offsets_even_side() {
    let g = grid_offsets(2);
    assert_eq!(g, vec![(-1, -1, -1), (-1, -1, 1), (-1, 1, -1), (-1, 1, 1), (1, -1, -1), (1, -1, 1), (1, 1, -1), (1, 1, 1)]);
    assert!(grid_offsets(0).is_empty());
}

#[test]
fn central_planes_of_a_small_grid() {
    let n = 3;
    let on: Vec<usize> = (0..27).filter(|&i| on_central_plane(i, n)).collect();
    // every point except the 8 corners
    assert_eq!(on.len(), 27 - 8);
    assert!(!on_central_plane(0, n));
    assert!(on_central_plane(13, n));
    assert!(on_central_plane(3 * 3 + 0 * 3 + 0, n));
}

#[test]
fn central_plane_count_of_the_default_grid() {
    let n = 15;
    let count = (0..n * n * n).filter(|&i| on_central_plane(i, n)).count();
    assert_eq!(count, n * n * n - (n - 1) * (n - 1) * (n - 1));
}

#[test]
fn sphere_indices_of_a_small_sphere() {
    let idx = sphere_indices(2, 2);
    // band 0: lower triangles only; band 1: upper triangles only
    assert_eq!(idx, vec![1, 3, 4, 2, 4, 5, 3, 6, 4, 4, 7, 5]);
}

#[test]
fn sphere_index_count_and_range() {
    let (sectors, stacks) = (48u32, 24u32);
    let idx = sphere_indices(sectors, stacks);
    assert_eq!(idx.len() as u32, 6 * sectors * (stacks - 1));
    assert!(idx.iter().all(|&i| i < (stacks + 1) * (sectors + 1)));
}

#[test]
fn sphere_with_one_band_has_no_triangles() {
    assert!(sphere_indices(8, 1).is_empty());
    assert!(sphere_indices(8, 0).is_empty());
}

#[test]
fn ring_indices_of_two_segments() {
    assert_eq!(ring_indices(2), vec![0, 1, 2, 2, 1, 3, 2, 3, 4, 4, 3, 5]);
}

#[test]
fn ring_index_count_and_range() {
    let idx = ring_indices(64);
    assert_eq!(idx.len(), 6 * 64);
    assert!(idx.iter().all(|&i| i < 2 * 64 + 2));
}
