use raytracer::perlin::{make_permutation, shuffle, PerlinLattice, POINT_COUNT};

fn assert_bijection(p: &[usize]) {
    assert_eq!(p.len(), POINT_COUNT);
    let mut seen = vec![false; POINT_COUNT];
    for &v in p {
        assert!(v < POINT_COUNT);
        assert!(!seen[v]);
        seen[v] = true;
    }
    assert!(seen.iter().all(|&s| s));
}

#[test]
fn permutation_is_bijection() {
    for _ in 0..20 {
        assert_bijection(&make_permutation());
    }
}

#[test]
fn lattice_permutations_are_bijections() {
    let lattice = PerlinLattice::new();
    assert_bijection(lattice.permutation_x());
    assert_bijection(lattice.permutation_y());
    assert_bijection(lattice.permutation_z());
}

fn expected_corner(lattice: &PerlinLattice, i: i64, j: i64, k: i64) -> usize {
    lattice.permutation_x()[(i & 255) as usize]
        ^ lattice.permutation_y()[(j & 255) as usize]
        ^ lattice.permutation_z()[(k & 255) as usize]
}

#[test]
fn corner_indices_hash_each_corner() {
    let lattice = PerlinLattice::new();
    for &(i, j, k) in &[(1i64, 2i64, 3i64), (-1, -256, 255), (0, 0, 0), (1000, -7, 511)] {
        let corners = lattice.corner_indices(i, j, k);
        assert_eq!(corners.len(), 8);
        for di in 0..2i64 {
            for dj in 0..2i64 {
                for dk in 0..2i64 {
                    let n = (4 * di + 2 * dj + dk) as usize;
                    assert_eq!(corners[n], expected_corner(&lattice, i + di, j + dj, k + dk));
                    assert!(corners[n] < POINT_COUNT);
                }
            }
        }
    }
}

#[test]
fn corner_indices_wrap_with_period() {
    let lattice = PerlinLattice::new();
    assert_eq!(lattice.corner_indices(-1, 3, 9), lattice.corner_indices(255, 259, -247));
    assert_eq!(lattice.corner_indices(i64::MAX, i64::MIN, 0), lattice.corner_indices(255, 0, 0));
}

fn self_swaps() -> Vec<usize> {
    (0..POINT_COUNT - 1).map(|k| POINT_COUNT - 1 - k).collect()
}

#[test]
fn shuffle_with_self_swaps_is_identity() {
    assert_eq!(shuffle(&self_swaps()), (0..POINT_COUNT).collect::<Vec<usize>>());
}

#[test]
fn shuffle_first_step_swaps_last_entry() {
    let mut targets = self_swaps();
    targets[0] = 0;
    let p = shuffle(&targets);
    assert_eq!(p[0], 255);
    assert_eq!(p[255], 0);
    assert!((1..255).all(|i| p[i] == i));
}

#[test]
fn shuffle_applies_swaps_in_order() {
    // Every step swaps its index with entry 0: the identity rotates by one.
    let p = shuffle(&vec![0; POINT_COUNT - 1]);
    assert_eq!(p[0], 1);
    assert_eq!(p[255], 0);
    assert!((1..255).all(|i| p[i] == i + 1));
    assert_bijection(&p);
}

#[test]
fn shuffle_matches_fisher_yates_steps() {
    let targets: Vec<usize> = (0..POINT_COUNT - 1).map(|k| (k * 37 + 11) % (POINT_COUNT - k)).collect();
    let mut expected: Vec<usize> = (0..POINT_COUNT).collect();
    for (k, &t) in targets.iter().enumerate() {
        expected.swap(POINT_COUNT - 1 - k, t);
    }
    let p = shuffle(&targets);
    assert_eq!(p, expected);
    assert_bijection(&p);
}
