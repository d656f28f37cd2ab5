use blackhole_sim::population::{push_capped, MAX_BH, MAX_BODIES, MAX_DEBRIS};
use blackhole_sim::simulation::{avoidance_step, AvoidStep, Phase, Simulation, SpawnError, AVOID_MAX_ITER};

#[test]
fn limits_match_the_simulator() {
    assert_eq!(MAX_BH, 8);
    assert_eq!(MAX_BODIES, 16);
    assert_eq!(MAX_DEBRIS, 600);
    assert_eq!(AVOID_MAX_ITER, 16);
}

#[test]
fn push_capped_stops_at_the_limit() {
    let mut v = vec![1, 2, 3];
    push_capped(&mut v, vec![10, 11, 12, 13], 5);
    assert_eq!(v, vec![1, 2, 3, 10, 11]);
}

#[test]
fn push_capped_with_room_takes_everything() {
    let mut v = vec![1];
    push_capped(&mut v, vec![7, 8], 10);
    assert_eq!(v, vec![1, 7, 8]);
}

#[test]
fn push_capped_on_a_full_list_adds_nothing() {
    let mut v = vec![1, 2];
    push_capped(&mut v, vec![3], 2);
    assert_eq!(v, vec![1, 2]);
}

#[test]
fn new_simulation_holds_one_black_hole() {
    let sim: Simulation<&str, u32, u32> = Simulation::new("bh");
    assert_eq!(sim.black_hole_count(), 1);
    assert!(sim.bodies.is_empty());
    assert!(sim.debris.is_empty());
    assert_eq!(sim.phase(), Phase::SingleBlackHole);
}

#[test]
fn black_hole_spawn_reports_the_first_black_hole_in_the_way() {
    let sim: Simulation<u32, u32, u32> = Simulation { black_holes: vec![1, 2, 3], bodies: vec![9], debris: vec![] };
    let r = sim.check_black_hole_spawn(&vec![false, true, true], &vec![true]);
    assert_eq!(r, Err(SpawnError::TooCloseToBlackHole { index: 1 }));
}

#[test]
fn black_hole_spawn_then_reports_bodies() {
    let sim: Simulation<u32, u32, u32> = Simulation { black_holes: vec![1], bodies: vec![9, 8, 7], debris: vec![] };
    let r = sim.check_black_hole_spawn(&vec![false], &vec![false, false, true]);
    assert_eq!(r, Err(SpawnError::TooCloseToBody { index: 2 }));
}

#[test]
fn spawn_capacity_comes_first() {
    let sim: Simulation<u32, u32, u32> = Simulation { black_holes: vec![0; 8], bodies: vec![], debris: vec![] };
    let r = sim.check_black_hole_spawn(&vec![true; 8], &vec![]);
    assert_eq!(r, Err(SpawnError::AtCapacity { max: 8 }));
    let sim2: Simulation<u32, u32, u32> = Simulation { black_holes: vec![], bodies: vec![0; 16], debris: vec![] };
    assert_eq!(sim2.check_body_spawn(&vec![], &vec![false; 16]), Err(SpawnError::AtCapacity { max: 16 }));
}

#[test]
fn add_black_hole_admits_a_safe_one() {
    let mut sim: Simulation<u32, u32, u32> = Simulation::new(1);
    assert_eq!(sim.add_black_hole(2, &vec![false], &vec![]), Ok(()));
    assert_eq!(sim.black_holes, vec![1, 2]);
    assert_eq!(sim.phase(), Phase::Population { black_holes: 2, bodies: 0, debris: 0 });
}

#[test]
fn add_body_refused_leaves_everything_unchanged() {
    let mut sim: Simulation<u32, u32, u32> = Simulation::new(1);
    sim.add_body(5, &vec![false], &vec![]).unwrap();
    let r = sim.add_body(6, &vec![false], &vec![true]);
    assert_eq!(r, Err(SpawnError::TooCloseToBody { index: 0 }));
    assert_eq!(sim.bodies, vec![5]);
    assert_eq!(sim.black_holes, vec![1]);
}

#[test]
fn add_body_refused_near_a_black_hole() {
    let mut sim: Simulation<u32, u32, u32> = Simulation::new(1);
    assert_eq!(sim.add_body(5, &vec![true], &vec![]), Err(SpawnError::TooCloseToBlackHole { index: 0 }));
    assert!(sim.bodies.is_empty());
}

#[test]
fn phases_of_the_status_line() {
    let empty: Simulation<u32, u32, u32> = Simulation { black_holes: vec![], bodies: vec![1], debris: vec![] };
    assert_eq!(empty.phase(), Phase::Empty);
    let mixed: Simulation<u32, u32, u32> = Simulation { black_holes: vec![1], bodies: vec![1, 2], debris: vec![1, 2, 3] };
    assert_eq!(mixed.phase(), Phase::Population { black_holes: 1, bodies: 2, debris: 3 });
}

#[test]
fn avoidance_moves_away_from_the_obstacle() {
    assert_eq!(avoidance_step(0, Ok(())), AvoidStep::UseCandidate);
    assert_eq!(avoidance_step(3, Err(SpawnError::AtCapacity { max: 8 })), AvoidStep::UseOriginal);
    assert_eq!(avoidance_step(2, Err(SpawnError::TooCloseToBlackHole { index: 4 })), AvoidStep::LeaveBlackHole(4));
    assert_eq!(avoidance_step(5, Err(SpawnError::TooCloseToBody { index: 1 })), AvoidStep::LeaveBody(1));
}

#[test]
fn avoidance_gives_up_after_the_last_move() {
    let step = avoidance_step(AVOID_MAX_ITER, Err(SpawnError::TooCloseToBody { index: 1 }));
    assert_eq!(step, AvoidStep::UseCandidate);
}
