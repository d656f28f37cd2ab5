use blackhole_sim::capture::{first_flagged, first_flags_per_row, horizon_verdicts, HorizonVerdict};
use blackhole_sim::removal::{reversed, retain_flagged, split_marked, split_targeted};
use blackhole_sim::simulation::Simulation;

#[test]
fn first_flagged_finds_the_first() {
    assert_eq!(first_flagged(&vec![false, true, true]), Some(1));
    assert_eq!(first_flagged(&vec![false, false]), None);
    assert_eq!(first_flagged(&vec![]), None);
}

#[test]
fn first_flags_per_row_works_row_by_row() {
    let m = vec![vec![false, true], vec![false, false], vec![true, true]];
    assert_eq!(first_flags_per_row(&m), vec![Some(1), None, Some(0)]);
}

#[test]
fn split_marked_separates_in_order() {
    let mut v = vec!['a', 'b', 'c', 'd'];
    let taken = split_marked(&mut v, &vec![true, false, true, false]);
    assert_eq!(v, vec!['b', 'd']);
    assert_eq!(taken, vec!['a', 'c']);
}

#[test]
fn split_targeted_pairs_with_targets() {
    let mut v = vec![10, 20, 30];
    let taken = split_targeted(&mut v, &vec![None, Some(4), Some(0)]);
    assert_eq!(v, vec![10]);
    assert_eq!(taken, vec![(20, 4), (30, 0)]);
}

#[test]
fn retain_flagged_keeps_flagged() {
    let mut v = vec![1, 2, 3];
    retain_flagged(&mut v, &vec![false, true, true]);
    assert_eq!(v, vec![2, 3]);
}

#[test]
fn reversed_reverses() {
    assert_eq!(reversed(vec![1, 2, 3]), vec![3, 2, 1]);
    assert_eq!(reversed(Vec::<u8>::new()), Vec::<u8>::new());
}

#[test]
fn verdicts_use_the_first_horizon() {
    let inside = vec![vec![false, false], vec![false, true], vec![true, true], vec![true, false]];
    let tears = vec![vec![true, true], vec![false, true], vec![false, true], vec![true, false]];
    let v = horizon_verdicts(&inside, &tears, 2);
    assert_eq!(
        v,
        vec![HorizonVerdict::Outside, HorizonVerdict::Disrupt(1), HorizonVerdict::Absorb, HorizonVerdict::Disrupt(0)]
    );
}

#[test]
fn absorption_removes_exactly_the_absorbed() {
    let mut sim: Simulation<u32, char, u32> = Simulation { black_holes: vec![1], bodies: vec!['a', 'b', 'c', 'd'], debris: vec![] };
    let v = vec![HorizonVerdict::Absorb, HorizonVerdict::Outside, HorizonVerdict::Absorb, HorizonVerdict::Outside];
    let torn = sim.check_event_horizon_absorption(&v);
    assert!(torn.is_empty());
    assert_eq!(sim.bodies, vec!['b', 'd']);
}

#[test]
fn a_single_disruption_takes_its_body() {
    let mut sim: Simulation<u32, char, u32> = Simulation { black_holes: vec![1, 2], bodies: vec!['a', 'b', 'c'], debris: vec![] };
    let v = vec![HorizonVerdict::Outside, HorizonVerdict::Disrupt(1), HorizonVerdict::Outside];
    let torn = sim.check_event_horizon_absorption(&v);
    assert_eq!(torn, vec![('b', 1)]);
    assert_eq!(sim.bodies, vec!['a', 'c']);
}

#[test]
fn disruptions_take_bodies_by_their_original_positions() {
    let mut sim: Simulation<u32, char, u32> =
        Simulation { black_holes: vec![1, 2], bodies: vec!['a', 'b', 'c', 'd', 'e'], debris: vec![] };
    let v = vec![
        HorizonVerdict::Outside,
        HorizonVerdict::Disrupt(0),
        HorizonVerdict::Outside,
        HorizonVerdict::Disrupt(1),
        HorizonVerdict::Outside,
    ];
    let torn = sim.check_event_horizon_absorption(&v);
    assert_eq!(torn, vec![('d', 1), ('b', 0)]);
    assert_eq!(sim.bodies, vec!['a', 'c', 'e']);
}

#[test]
fn two_disruptions_leave_only_the_outside_body() {
    let mut sim: Simulation<u32, char, u32> =
        Simulation { black_holes: vec![1], bodies: vec!['a', 'b', 'c'], debris: vec![] };
    let v = vec![HorizonVerdict::Disrupt(0), HorizonVerdict::Disrupt(0), HorizonVerdict::Outside];
    let torn = sim.check_event_horizon_absorption(&v);
    assert_eq!(torn, vec![('b', 0), ('a', 0)]);
    assert_eq!(sim.bodies, vec!['c']);
}

#[test]
fn absorptions_after_a_disruption_use_original_positions() {
    let mut sim: Simulation<u32, char, u32> =
        Simulation { black_holes: vec![1], bodies: vec!['a', 'b', 'c', 'd'], debris: vec![] };
    let v = vec![HorizonVerdict::Disrupt(0), HorizonVerdict::Outside, HorizonVerdict::Absorb, HorizonVerdict::Absorb];
    let torn = sim.check_event_horizon_absorption(&v);
    assert_eq!(torn, vec![('a', 0)]);
    assert_eq!(sim.bodies, vec!['b']);
}

#[test]
fn every_captured_body_leaves() {
    let mut sim: Simulation<u32, char, u32> =
        Simulation { black_holes: vec![1, 2], bodies: vec!['a', 'b', 'c'], debris: vec![] };
    let v = vec![HorizonVerdict::Absorb, HorizonVerdict::Disrupt(1), HorizonVerdict::Absorb];
    let torn = sim.check_event_horizon_absorption(&v);
    assert_eq!(torn, vec![('b', 1)]);
    assert!(sim.bodies.is_empty());
}

#[test]
fn roche_victims_come_back_last_first() {
    let mut sim: Simulation<u32, char, u32> =
        Simulation { black_holes: vec![1, 2], bodies: vec!['a', 'b', 'c'], debris: vec![] };
    let within = vec![vec![false, true], vec![false, false], vec![true, true]];
    let torn = sim.check_roche_disruption(&within);
    assert_eq!(torn, vec![('c', 0), ('a', 1)]);
    assert_eq!(sim.bodies, vec!['b']);
}

#[test]
fn swallowed_debris_is_dropped() {
    let mut sim: Simulation<u32, u32, char> =
        Simulation { black_holes: vec![1, 2], bodies: vec![], debris: vec!['x', 'y', 'z'] };
    sim.drop_swallowed_debris(&vec![vec![false, false], vec![false, true], vec![false, false]]);
    assert_eq!(sim.debris, vec!['x', 'z']);
}

#[test]
fn debris_is_added_up_to_the_limit() {
    let mut sim: Simulation<u32, u32, u32> = Simulation { black_holes: vec![], bodies: vec![], debris: vec![0; 595] };
    sim.add_debris(vec![1; 60]);
    assert_eq!(sim.debris.len(), 600);
    assert_eq!(sim.debris[594], 0);
    assert_eq!(sim.debris[595], 1);
}
