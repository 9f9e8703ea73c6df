use rt::perlin::{
    check_draws, check_permutation, identity_perm, perlin_generate_perm, perm_from_draws, permute,
    permute_with, swap_entries, Perlin, POINT_COUNT,
};

fn identity() -> Vec<usize> {
    (0..POINT_COUNT).collect()
}

fn reversed() -> Vec<usize> {
    (0..POINT_COUNT).rev().collect()
}

fn rotated(by: usize) -> Vec<usize> {
    (0..POINT_COUNT).map(|i| (i + by) % POINT_COUNT).collect()
}

#[test]
fn point_count_is_256() {
    assert_eq!(POINT_COUNT, 256);
}

#[test]
fn swap_entries_exchanges_two_positions() {
    let mut p = vec![10, 20, 30, 40];
    swap_entries(&mut p, 0, 3);
    assert_eq!(p, vec![40, 20, 30, 10]);
    swap_entries(&mut p, 1, 1);
    assert_eq!(p, vec![40, 20, 30, 10]);
}

#[test]
fn check_draws_wants_one_draw_below_each_position() {
    assert!(check_draws(0, &vec![]));
    assert!(check_draws(1, &vec![]));
    assert!(check_draws(4, &vec![2, 1, 0]));
    assert!(check_draws(4, &vec![0, 0, 0]));
    assert!(!check_draws(4, &vec![3, 1, 0]));
    assert!(!check_draws(4, &vec![2, 2, 0]));
    assert!(!check_draws(4, &vec![2, 1, 1]));
    assert!(!check_draws(4, &vec![2, 1]));
    assert!(!check_draws(4, &vec![2, 1, 0, 0]));
    assert!(!check_draws(0, &vec![0]));
}

#[test]
fn permute_with_applies_draws_from_the_top() {
    let mut p = vec![0, 1, 2, 3];
    // Position 3 takes from 1, then position 2 from 0, then position 1 from 0.
    assert!(permute_with(&mut p, 4, &vec![1, 0, 0]));
    assert_eq!(p, vec![3, 2, 0, 1]);
}

#[test]
fn permute_with_leaves_the_tail_alone() {
    let mut p = vec![5, 6, 7, 8, 9];
    assert!(permute_with(&mut p, 3, &vec![0, 0]));
    assert_eq!(p, vec![6, 7, 5, 8, 9]);
}

#[test]
fn permute_with_refuses_bad_draws() {
    let mut p = vec![0, 1, 2, 3];
    assert!(!permute_with(&mut p, 4, &vec![3, 0, 0]));
    assert_eq!(p, vec![0, 1, 2, 3]);
    assert!(!permute_with(&mut p, 4, &vec![0, 0]));
    assert_eq!(p, vec![0, 1, 2, 3]);
}

#[test]
fn permute_with_short_tables() {
    let mut none: Vec<usize> = vec![];
    assert!(permute_with(&mut none, 0, &vec![]));
    let mut one = vec![7];
    assert!(permute_with(&mut one, 1, &vec![]));
    assert_eq!(one, vec![7]);
    let mut two = vec![7, 8];
    assert!(permute_with(&mut two, 2, &vec![0]));
    assert_eq!(two, vec![8, 7]);
}

#[test]
fn permute_keeps_the_entries() {
    let mut p: Vec<usize> = vec![3, 3, 9, 1, 4, 4, 4, 0];
    permute(&mut p, 6);
    assert_eq!(p.len(), 8);
    assert_eq!(p[6], 4);
    assert_eq!(p[7], 0);
    let mut sorted = p.clone();
    sorted.sort();
    assert_eq!(sorted, vec![0, 1, 3, 3, 4, 4, 4, 9]);
}

#[test]
fn permute_moves_the_last_entry() {
    // The last position always takes an entry from further down.
    for _ in 0..50 {
        let mut p = identity();
        permute(&mut p, POINT_COUNT);
        assert_ne!(p[POINT_COUNT - 1], POINT_COUNT - 1);
        assert!(check_permutation(&p));
    }
}

#[test]
fn generated_table_is_a_permutation() {
    for _ in 0..20 {
        let p = perlin_generate_perm();
        assert_eq!(p.len(), POINT_COUNT);
        let mut seen = vec![false; POINT_COUNT];
        for &v in p.iter() {
            assert!(v < POINT_COUNT);
            assert!(!seen[v]);
            seen[v] = true;
        }
        assert!(check_permutation(&p));
        assert_ne!(p[POINT_COUNT - 1], POINT_COUNT - 1);
    }
}

#[test]
fn check_permutation_tells_tables_apart() {
    assert!(check_permutation(&identity()));
    assert!(check_permutation(&reversed()));
    let mut short = identity();
    short.pop();
    assert!(!check_permutation(&short));
    let mut twice = identity();
    twice[5] = 6;
    assert!(!check_permutation(&twice));
    let mut large = identity();
    large[0] = 256;
    assert!(!check_permutation(&large));
    assert!(!check_permutation(&vec![]));
}

#[test]
fn from_tables_wants_three_permutations() {
    assert!(Perlin::from_tables(identity(), reversed(), rotated(3)).is_some());
    let mut bad = identity();
    bad[1] = 0;
    assert!(Perlin::from_tables(bad.clone(), identity(), identity()).is_none());
    assert!(Perlin::from_tables(identity(), bad.clone(), identity()).is_none());
    assert!(Perlin::from_tables(identity(), identity(), bad).is_none());
}

#[test]
fn from_tables_keeps_the_tables() {
    let noise = Perlin::from_tables(identity(), reversed(), rotated(3)).unwrap();
    assert_eq!(noise.perm_x(), &identity());
    assert_eq!(noise.perm_y(), &reversed());
    assert_eq!(noise.perm_z(), &rotated(3));
}

#[test]
fn new_generator_has_three_permutations() {
    let noise = Perlin::new();
    assert!(check_permutation(noise.perm_x()));
    assert!(check_permutation(noise.perm_y()));
    assert!(check_permutation(noise.perm_z()));
}

#[test]
fn gradient_index_combines_by_exclusive_or() {
    let noise = Perlin::from_tables(identity(), reversed(), rotated(3)).unwrap();
    // x: 5, y: 255 - 9 = 246, z: 12 + 3 = 15.
    assert_eq!(noise.gradient_index(5, 9, 12), 5 ^ 246 ^ 15);
    assert_eq!(noise.gradient_index(5, 9, 12), 252);
    assert_eq!(noise.gradient_index(0, 0, 0), 0 ^ 255 ^ 3);
}

#[test]
fn gradient_index_wraps_coordinates() {
    let noise = Perlin::from_tables(identity(), reversed(), rotated(3)).unwrap();
    assert_eq!(noise.gradient_index(256 + 5, 512 + 9, 1024 + 12), noise.gradient_index(5, 9, 12));
    assert_eq!(noise.gradient_index(usize::MAX, 0, 0), 255 ^ 255 ^ 3);
    assert_eq!(noise.gradient_index(0, 0, 253), 0 ^ 255 ^ 0);
}

#[test]
fn gradient_index_stays_in_the_lattice() {
    let noise = Perlin::new();
    for i in 0..300 {
        assert!(noise.gradient_index(i, 7 * i, 13 * i + 1) < POINT_COUNT);
    }
}

#[test]
fn corner_indices_lists_the_eight_corners() {
    let noise = Perlin::from_tables(identity(), reversed(), rotated(3)).unwrap();
    let slots = noise.corner_indices(5, 9, 12);
    assert_eq!(slots.len(), 8);
    for di in 0..2 {
        for dj in 0..2 {
            for dk in 0..2 {
                assert_eq!(
                    slots[4 * di + 2 * dj + dk],
                    noise.gradient_index(5 + di, 9 + dj, 12 + dk)
                );
            }
        }
    }
    assert_eq!(slots[0], 252);
    assert_eq!(slots[7], 6 ^ 245 ^ 16);
}

#[test]
fn corner_indices_wrap_at_the_edge() {
    let noise = Perlin::from_tables(identity(), reversed(), rotated(3)).unwrap();
    let slots = noise.corner_indices(255, 255, usize::MAX);
    assert_eq!(slots[0], 255 ^ 0 ^ 2);
    assert_eq!(slots[7], 0 ^ 255 ^ 3);
    assert_eq!(slots[4], 0 ^ 0 ^ 2);
}

#[test]
fn identity_perm_holds_each_index_in_place() {
    assert_eq!(identity_perm(), identity());
}

#[test]
fn perm_from_draws_of_zeros_rotates_by_one() {
    // Every position in turn takes what stands at the front.
    let draws = vec![0usize; POINT_COUNT - 1];
    assert_eq!(perm_from_draws(&draws), Some(rotated(1)));
}

#[test]
fn perm_from_draws_of_the_highest_draws() {
    // Each position takes from its neighbour below, which passes the first entry all the way down.
    let draws: Vec<usize> = (0..POINT_COUNT - 1).map(|k| POINT_COUNT - 2 - k).collect();
    let table = perm_from_draws(&draws).unwrap();
    assert_eq!(table[POINT_COUNT - 1], POINT_COUNT - 2);
    assert_eq!(table[0], POINT_COUNT - 1);
    assert_eq!(table[1], 0);
    assert_eq!(table[100], 99);
    assert!(check_permutation(&table));
}

#[test]
fn perm_from_draws_refuses_bad_draws() {
    assert_eq!(perm_from_draws(&vec![0usize; POINT_COUNT]), None);
    assert_eq!(perm_from_draws(&vec![0usize; POINT_COUNT - 2]), None);
    assert_eq!(perm_from_draws(&vec![]), None);
    let mut draws = vec![0usize; POINT_COUNT - 1];
    draws[0] = POINT_COUNT - 1;
    assert_eq!(perm_from_draws(&draws), None);
    draws[0] = POINT_COUNT - 2;
    assert!(perm_from_draws(&draws).is_some());
    draws[POINT_COUNT - 2] = 1;
    assert_eq!(perm_from_draws(&draws), None);
}

#[test]
fn from_draws_gives_the_same_generator_for_the_same_draws() {
    let zeros = vec![0usize; POINT_COUNT - 1];
    let tops: Vec<usize> = (0..POINT_COUNT - 1).map(|k| POINT_COUNT - 2 - k).collect();
    let first = Perlin::from_draws(&zeros, &tops, &zeros).unwrap();
    let second = Perlin::from_draws(&zeros, &tops, &zeros).unwrap();
    assert_eq!(first.perm_x(), second.perm_x());
    assert_eq!(first.perm_y(), second.perm_y());
    assert_eq!(first.perm_z(), second.perm_z());
    assert_eq!(first.perm_x(), &rotated(1));
    assert_eq!(first.perm_y(), &perm_from_draws(&tops).unwrap());
    for i in 0..40 {
        assert_eq!(first.corner_indices(i, 3 * i, 5 * i), second.corner_indices(i, 3 * i, 5 * i));
    }
    assert_eq!(first.gradient_index(0, 1, 2), 1 ^ 0 ^ 3);
}

#[test]
fn from_draws_wants_three_valid_runs() {
    let zeros = vec![0usize; POINT_COUNT - 1];
    let short = vec![0usize; 3];
    assert!(Perlin::from_draws(&short, &zeros, &zeros).is_none());
    assert!(Perlin::from_draws(&zeros, &short, &zeros).is_none());
    assert!(Perlin::from_draws(&zeros, &zeros, &short).is_none());
}
