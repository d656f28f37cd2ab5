use blackhole_sim::encounters::{
    collision_pairs, first_close_pair, merge_pair, remove_paired, split_outcomes, CollisionOutcome,
};
use blackhole_sim::simulation::Simulation;

fn table(n: usize, set: &[(usize, usize)]) -> Vec<Vec<bool>> {
    let mut t = vec![vec![false; n]; n];
    for &(i, j) in set {
        t[i][j] = true;
        t[j][i] = true;
    }
    t
}

#[test]
fn first_close_pair_scans_in_order() {
    assert_eq!(first_close_pair(&table(4, &[(1, 3), (0, 2), (2, 3)])), Some((0, 2)));
    assert_eq!(first_close_pair(&table(4, &[(1, 3), (1, 2)])), Some((1, 2)));
    assert_eq!(first_close_pair(&table(3, &[])), None);
    assert_eq!(first_close_pair(&vec![]), None);
}

#[test]
fn merge_pair_appends_the_merged() {
    let mut v = vec!['a', 'b', 'c', 'd'];
    merge_pair(&mut v, 1, 3, 'M');
    assert_eq!(v, vec!['a', 'c', 'M']);
}

#[test]
fn merging_black_holes_leaves_one_fewer() {
    let mut sim: Simulation<char, u32, u32> = Simulation { black_holes: vec!['a', 'b', 'c'], bodies: vec![], debris: vec![] };
    let pair = sim.merging_pair(&table(3, &[(0, 2)])).unwrap();
    assert_eq!(pair, (0, 2));
    sim.merge_black_holes(pair.0, pair.1, 'M');
    assert_eq!(sim.black_holes, vec!['b', 'M']);
}

#[test]
fn collision_scan_is_greedy() {
    // 0 touches 1 and 2; 1 touches 2; 2 touches 3.
    let t = table(4, &[(0, 1), (0, 2), (1, 2), (2, 3)]);
    assert_eq!(collision_pairs(&t), vec![(0, 1), (2, 3)]);
}

#[test]
fn collision_scan_skips_taken_bodies() {
    // 0 touches 2; 1 touches 2 and 3: 0 takes 2 first, so 1 collides with 3.
    let t = table(4, &[(0, 2), (1, 2), (1, 3)]);
    assert_eq!(collision_pairs(&t), vec![(0, 2), (1, 3)]);
}

#[test]
fn collision_scan_leaves_a_body_whose_partners_are_taken() {
    // 0 touches 1; 2 touches 1 only: 2 stays.
    let t = table(3, &[(0, 1), (1, 2)]);
    assert_eq!(collision_pairs(&t), vec![(0, 1)]);
}

#[test]
fn remove_paired_drops_both_partners() {
    let mut v = vec!['a', 'b', 'c', 'd', 'e'];
    remove_paired(&mut v, &vec![(0, 3), (1, 4)]);
    assert_eq!(v, vec!['c']);
}

#[test]
fn collisions_remove_two_bodies_each_and_add_results() {
    let mut sim: Simulation<u32, char, char> =
        Simulation { black_holes: vec![], bodies: vec!['a', 'b', 'c', 'd', 'e'], debris: vec!['x'] };
    let t = table(5, &[(0, 1), (2, 4)]);
    let pairs = sim.collision_pairs(&t);
    assert_eq!(pairs, vec![(0, 1), (2, 4)]);
    sim.check_body_collisions(&pairs, vec![CollisionOutcome::Merge('M'), CollisionOutcome::Shatter(vec!['f', 'g'])]);
    assert_eq!(sim.bodies, vec!['d', 'M']);
    assert_eq!(sim.debris, vec!['x', 'f', 'g']);
}

#[test]
fn collision_results_respect_the_limits() {
    let mut sim: Simulation<u32, u32, u32> =
        Simulation { black_holes: vec![], bodies: (0..16).collect(), debris: vec![0; 599] };
    let t = table(16, &[(3, 5), (7, 9)]);
    let pairs = sim.collision_pairs(&t);
    assert_eq!(pairs, vec![(3, 5), (7, 9)]);
    sim.check_body_collisions(&pairs, vec![CollisionOutcome::Shatter(vec![7, 8, 9]), CollisionOutcome::Merge(100)]);
    assert_eq!(sim.bodies.len(), 13);
    assert_eq!(sim.bodies[11], 15);
    assert_eq!(sim.bodies[12], 100);
    assert_eq!(sim.debris.len(), 600);
    assert_eq!(sim.debris[599], 7);
}

#[test]
fn collisions_never_add_bodies() {
    let mut sim: Simulation<u32, char, char> =
        Simulation { black_holes: vec![], bodies: vec!['a', 'b', 'c', 'd'], debris: vec![] };
    let t = table(4, &[(0, 1), (2, 3)]);
    let pairs = sim.collision_pairs(&t);
    sim.check_body_collisions(&pairs, vec![CollisionOutcome::Merge('M'), CollisionOutcome::Merge('N')]);
    assert_eq!(sim.bodies, vec!['M', 'N']);
}

#[test]
fn outcomes_split_into_bodies_and_fragments() {
    let (merged, fragments) = split_outcomes(vec![
        CollisionOutcome::Shatter(vec!['p', 'q']),
        CollisionOutcome::Merge('M'),
        CollisionOutcome::Shatter(vec![]),
        CollisionOutcome::Shatter(vec!['r']),
        CollisionOutcome::Merge('N'),
    ]);
    assert_eq!(merged, vec!['M', 'N']);
    assert_eq!(fragments, vec!['p', 'q', 'r']);
}
