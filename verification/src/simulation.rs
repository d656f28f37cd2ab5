use vstd::prelude::*;

use crate::capture::{
    apply_horizon_verdicts, captured, disrupt_targets, drop_swallowed, first_flagged, first_targets,
    first_true, lemma_first_flagged_is_first_true, outside_all, take_roche_victims, HorizonVerdict,
};
use crate::encounters::{
    after_collisions, collision_pairs, first_close_pair, flagged_pair, fragments_of, greedy_matching,
    in_any_pair, merge_pair, remove_paired, scanned_before, split_outcomes, square,
    CollisionOutcome,
};
use crate::population::{push_capped, room, MAX_BH, MAX_BODIES, MAX_DEBRIS};
use crate::removal::{kept, picked, picked_with_target, targeted};

verus! {

/// Why a new black hole or body may not be added where it is.
#[derive(Clone, Copy, PartialEq, Eq, Debug)]
pub enum SpawnError {
    /// The list is already full; `max` is its limit.
    AtCapacity { max: usize },
    /// The position is too close to the black hole with this index.
    TooCloseToBlackHole { index: usize },
    /// The position is too close to the body with this index.
    TooCloseToBody { index: usize },
}

/// The outcome of a spawn check for a list holding `count` of at most `cap`
/// objects, given which black holes and which bodies the newcomer would come
/// too close to: the capacity is checked first, then the black holes in
/// order, then the bodies in order.
pub open spec fn spawn_outcome(count: int, cap: usize, near_bh: Seq<bool>, near_body: Seq<bool>) -> Result<(), SpawnError> {
    if count >= cap {
        Err(SpawnError::AtCapacity { max: cap })
    } else {
        match first_true(near_bh) {
            Some(h) => Err(SpawnError::TooCloseToBlackHole { index: h as usize }),
            None => match first_true(near_body) {
                Some(b) => Err(SpawnError::TooCloseToBody { index: b as usize }),
                None => Ok(()),
            },
        }
    }
}

fn spawn_check(count: usize, cap: usize, near_bh: &Vec<bool>, near_body: &Vec<bool>) -> (r: Result<(), SpawnError>)
    ensures
        r == spawn_outcome(count as int, cap, near_bh@, near_body@),
{
    if count >= cap {
        return Err(SpawnError::AtCapacity { max: cap });
    }
    let h = first_flagged(near_bh);
    proof {
        lemma_first_flagged_is_first_true(near_bh@, h);
    }
    if let Some(index) = h {
        return Err(SpawnError::TooCloseToBlackHole { index });
    }
    let b = first_flagged(near_body);
    proof {
        lemma_first_flagged_is_first_true(near_body@, b);
    }
    if let Some(index) = b {
        return Err(SpawnError::TooCloseToBody { index });
    }
    Ok(())
}


/// Largest number of times the search for a safe spawn position moves the
/// candidate before it settles for the last one.
pub const AVOID_MAX_ITER: usize = 16;

/// The next move of the search for a safe spawn position.
#[derive(Clone, Copy, PartialEq, Eq, Debug)]
pub enum AvoidStep {
    /// Settle for the current candidate position.
    UseCandidate,
    /// Give up and keep the position the search started from.
    UseOriginal,
    /// Push the candidate radially out of the black hole with this index.
    LeaveBlackHole(usize),
    /// Push the candidate radially out of the body with this index.
    LeaveBody(usize),
}

/// The next move of the search for a safe spawn position, after `moves`
/// moves and given the spawn check of the current candidate: a safe
/// candidate is kept; a full list cannot be helped by moving, so the search
/// returns to where it started; a conflict pushes the candidate away from the
/// object in the way; after `AVOID_MAX_ITER` moves the last candidate is kept.
pub fn avoidance_step(moves: usize, check: Result<(), SpawnError>) -> (step: AvoidStep)
    requires
        moves <= AVOID_MAX_ITER,
    ensures
        step == (if moves == AVOID_MAX_ITER {
            AvoidStep::UseCandidate
        } else {
            match check {
                Ok(()) => AvoidStep::UseCandidate,
                Err(SpawnError::AtCapacity { .. }) => AvoidStep::UseOriginal,
                Err(SpawnError::TooCloseToBlackHole { index }) => AvoidStep::LeaveBlackHole(index),
                Err(SpawnError::TooCloseToBody { index }) => AvoidStep::LeaveBody(index),
            }
        }),
{
    if moves == AVOID_MAX_ITER {
        return AvoidStep::UseCandidate;
    }
    match check {
        Ok(()) => AvoidStep::UseCandidate,
        Err(SpawnError::AtCapacity { .. }) => AvoidStep::UseOriginal,
        Err(SpawnError::TooCloseToBlackHole { index }) => AvoidStep::LeaveBlackHole(index),
        Err(SpawnError::TooCloseToBody { index }) => AvoidStep::LeaveBody(index),
    }
}

/// What the status line says about the simulation.
#[derive(Clone, Copy, PartialEq, Eq, Debug)]
pub enum Phase {
    /// No black hole is left.
    Empty,
    /// One black hole and no body.
    SingleBlackHole,
    /// Any other population, with the number of black holes, bodies and debris particles.
    Population { black_holes: usize, bodies: usize, debris: usize },
}

/// The objects of the simulation: black holes, ordinary bodies and debris
/// particles, each list bounded by its limit. The types of the objects are
/// the caller's; this type decides which objects enter, merge, collide and
/// leave, from the geometric facts the caller hands in.
pub struct Simulation<B, C, D> {
    pub black_holes: Vec<B>,
    pub bodies: Vec<C>,
    pub debris: Vec<D>,
}

impl<B, C, D> Simulation<B, C, D> {
    /// Every list is within its limit.
    pub open spec fn wf(&self) -> bool {
        &&& self.black_holes@.len() <= MAX_BH
        &&& self.bodies@.len() <= MAX_BODIES
        &&& self.debris@.len() <= MAX_DEBRIS
    }

    /// A simulation holding the one black hole `first` and nothing else.
    pub fn new(first: B) -> (s: Self)
        ensures
            s.wf(),
            s.black_holes@ == seq![first],
            s.bodies@.len() == 0,
            s.debris@.len() == 0,
    {
        let mut black_holes = Vec::new();
        black_holes.push(first);
        Simulation { black_holes, bodies: Vec::new(), debris: Vec::new() }
    }

    /// The number of black holes.
    pub fn black_hole_count(&self) -> (n: usize)
        ensures
            n == self.black_holes@.len(),
    {
        self.black_holes.len()
    }

    /// Checks whether a new black hole may be added: `near_bh[h]` tells
    /// whether it would lie within the merger or horizon distance (with its
    /// safety margin) of black hole `h`, `near_body[b]` whether it would lie
    /// within the Roche limit (with its margin) of body `b`.
    pub fn check_black_hole_spawn(&self, near_bh: &Vec<bool>, near_body: &Vec<bool>) -> (r: Result<(), SpawnError>)
        ensures
            r == spawn_outcome(self.black_holes@.len() as int, MAX_BH, near_bh@, near_body@),
    {
        spawn_check(self.black_holes.len(), MAX_BH, near_bh, near_body)
    }

    /// Checks whether a new body may be added: `near_bh[h]` tells whether it
    /// would lie within the horizon or Roche limit (with its margin) of black
    /// hole `h`, `near_body[b]` whether it would touch body `b` (with its margin).
    pub fn check_body_spawn(&self, near_bh: &Vec<bool>, near_body: &Vec<bool>) -> (r: Result<(), SpawnError>)
        ensures
            r == spawn_outcome(self.bodies@.len() as int, MAX_BODIES, near_bh@, near_body@),
    {
        spawn_check(self.bodies.len(), MAX_BODIES, near_bh, near_body)
    }

    /// Adds the black hole `bh` if the spawn check passes; otherwise leaves
    /// the simulation unchanged and returns the reason.
    pub fn add_black_hole(&mut self, bh: B, near_bh: &Vec<bool>, near_body: &Vec<bool>) -> (r: Result<(), SpawnError>)
        requires
            old(self).wf(),
        ensures
            final(self).wf(),
            r == spawn_outcome(old(self).black_holes@.len() as int, MAX_BH, near_bh@, near_body@),
            r is Ok ==> final(self).black_holes@ == old(self).black_holes@.push(bh),
            r is Err ==> final(self).black_holes@ == old(self).black_holes@,
            final(self).bodies@ == old(self).bodies@,
            final(self).debris@ == old(self).debris@,
    {
        let r = self.check_black_hole_spawn(near_bh, near_body);
        if r.is_ok() {
            self.black_holes.push(bh);
        }
        r
    }

    /// Adds the body `body` if the spawn check passes; otherwise leaves the
    /// simulation unchanged and returns the reason.
    pub fn add_body(&mut self, body: C, near_bh: &Vec<bool>, near_body: &Vec<bool>) -> (r: Result<(), SpawnError>)
        requires
            old(self).wf(),
        ensures
            final(self).wf(),
            r == spawn_outcome(old(self).bodies@.len() as int, MAX_BODIES, near_bh@, near_body@),
            r is Ok ==> final(self).bodies@ == old(self).bodies@.push(body),
            r is Err ==> final(self).bodies@ == old(self).bodies@,
            final(self).black_holes@ == old(self).black_holes@,
            final(self).debris@ == old(self).debris@,
    {
        let r = self.check_body_spawn(near_bh, near_body);
        if r.is_ok() {
            self.bodies.push(body);
        }
        r
    }

    /// What the status line shows: empty without black holes, a single black
    /// hole when there is one and no body, else the three counts.
    pub fn phase(&self) -> (p: Phase)
        ensures
            p == (if self.black_holes@.len() == 0 {
                Phase::Empty
            } else if self.black_holes@.len() == 1 && self.bodies@.len() == 0 {
                Phase::SingleBlackHole
            } else {
                Phase::Population {
                    black_holes: self.black_holes@.len() as usize,
                    bodies: self.bodies@.len() as usize,
                    debris: self.debris@.len() as usize,
                }
            }),
    {
        let n = self.black_holes.len();
        let nb = self.bodies.len();
        let nd = self.debris.len();
        if n == 0 {
            Phase::Empty
        } else if n == 1 && nb == 0 {
            Phase::SingleBlackHole
        } else {
            Phase::Population { black_holes: n, bodies: nb, debris: nd }
        }
    }

    /// The pair of black holes that merges in this step: the first pair
    /// `i < j`, in scanning order, for which `close[i][j]` holds (their
    /// distance is below half the sum of their horizon radii).
    pub fn merging_pair(&self, close: &Vec<Vec<bool>>) -> (r: Option<(usize, usize)>)
        requires
            square(close@, self.black_holes@.len() as int),
        ensures
            match r {
                Some((i, j)) => flagged_pair(close@, i as int, j as int) && forall|a: int, b: int|
                    #![trigger close@[a]@[b]]
                    scanned_before(a, b, i as int, j as int) ==> !flagged_pair(close@, a, b),
                None => forall|a: int, b: int| #![trigger close@[a]@[b]] !flagged_pair(close@, a, b),
            },
    {
        first_close_pair(close)
    }

    /// Replaces the merging black holes `i < j` by the merged one, which
    /// joins the end of the list; the others keep their order.
    pub fn merge_black_holes(&mut self, i: usize, j: usize, merged: B)
        requires
            old(self).wf(),
            i < j < old(self).black_holes@.len(),
        ensures
            final(self).wf(),
            final(self).black_holes@ == old(self).black_holes@.remove(j as int).remove(i as int).push(merged),
            final(self).bodies@ == old(self).bodies@,
            final(self).debris@ == old(self).debris@,
    {
        merge_pair(&mut self.black_holes, i, j, merged);
    }

    /// Applies the horizon verdicts of the bodies (see `horizon_verdicts`):
    /// every body inside an event horizon leaves the list, removed by its
    /// position in the list as it was, and the bodies outside every horizon
    /// keep their order. Returns the bodies to disrupt, each with the black
    /// hole that tears it apart, from the back of the list to the front.
    pub fn check_event_horizon_absorption(&mut self, verdicts: &Vec<HorizonVerdict>) -> (torn: Vec<(C, usize)>)
        requires
            old(self).wf(),
            verdicts@.len() == old(self).bodies@.len(),
        ensures
            final(self).wf(),
            final(self).bodies@ == kept(old(self).bodies@, captured(verdicts@)),
            torn@ == picked_with_target(old(self).bodies@, disrupt_targets(verdicts@)).reverse(),
            final(self).black_holes@ == old(self).black_holes@,
            final(self).debris@ == old(self).debris@,
    {
        let torn = apply_horizon_verdicts(&mut self.bodies, verdicts);
        proof {
            lemma_kept_len(old(self).bodies@, captured(verdicts@));
        }
        torn
    }

    /// Takes out the bodies that lie within the Roche limit of a black hole
    /// (`within[b][h]`; the first such black hole counts), in decreasing order
    /// of their positions, each with its black hole; the other bodies keep
    /// their order.
    pub fn check_roche_disruption(&mut self, within: &Vec<Vec<bool>>) -> (torn: Vec<(C, usize)>)
        requires
            old(self).wf(),
            within@.len() == old(self).bodies@.len(),
        ensures
            final(self).wf(),
            final(self).bodies@ == kept(old(self).bodies@, targeted(first_targets(within@))),
            torn@ == picked_with_target(old(self).bodies@, first_targets(within@)).reverse(),
            final(self).black_holes@ == old(self).black_holes@,
            final(self).debris@ == old(self).debris@,
    {
        let torn = take_roche_victims(&mut self.bodies, within);
        proof {
            lemma_kept_len(old(self).bodies@, targeted(first_targets(within@)));
        }
        torn
    }

    /// The colliding pairs of bodies in this step (see `collision_pairs`).
    pub fn collision_pairs(&self, touch: &Vec<Vec<bool>>) -> (pairs: Vec<(usize, usize)>)
        requires
            square(touch@, self.bodies@.len() as int),
        ensures
            greedy_matching(touch@, touch@.len() as int, pairs@),
    {
        collision_pairs(touch)
    }

    /// Resolves the collisions `pairs`, where `outcomes[k]` tells how the
    /// collision `pairs[k]` ends: every body in a pair leaves the list (the
    /// others keep their order), then the bodies formed by merging collisions
    /// join in the order of the collisions while the list has room, then the
    /// fragments of shattering collisions join the debris while it has room.
    pub fn check_body_collisions(&mut self, pairs: &Vec<(usize, usize)>, outcomes: Vec<CollisionOutcome<C, D>>)
        requires
            old(self).wf(),
            outcomes@.len() == pairs@.len(),
        ensures
            final(self).wf(),
            final(self).bodies@ == after_collisions(old(self).bodies@, pairs@, outcomes@),
            final(self).debris@ == old(self).debris@ + fragments_of(outcomes@).take(
                room(old(self).debris@.len() as int, fragments_of(outcomes@).len() as int, MAX_DEBRIS as int),
            ),
            final(self).black_holes@ == old(self).black_holes@,
    {
        let (merged, fragments) = split_outcomes(outcomes);
        remove_paired(&mut self.bodies, pairs);
        proof {
            lemma_kept_len(old(self).bodies@, Seq::new(old(self).bodies@.len(), |x: int| in_any_pair(pairs@, x)));
        }
        push_capped(&mut self.bodies, merged, MAX_BODIES);
        push_capped(&mut self.debris, fragments, MAX_DEBRIS);
    }

    /// Adds debris particles in order while the debris list has room; the
    /// ones that do not fit are dropped.
    pub fn add_debris(&mut self, particles: Vec<D>)
        requires
            old(self).wf(),
        ensures
            final(self).wf(),
            final(self).debris@ == old(self).debris@ + particles@.take(
                room(old(self).debris@.len() as int, particles@.len() as int, MAX_DEBRIS as int),
            ),
            final(self).black_holes@ == old(self).black_holes@,
            final(self).bodies@ == old(self).bodies@,
    {
        push_capped(&mut self.debris, particles, MAX_DEBRIS);
    }

    /// Drops the debris particles that lie inside some event horizon
    /// (`inside[i][h]`); the others keep their order.
    pub fn drop_swallowed_debris(&mut self, inside: &Vec<Vec<bool>>)
        requires
            old(self).wf(),
            inside@.len() == old(self).debris@.len(),
        ensures
            final(self).wf(),
            final(self).debris@ == picked(old(self).debris@, Seq::new(inside@.len(), |i: int| outside_all(inside@[i]@))),
            final(self).black_holes@ == old(self).black_holes@,
            final(self).bodies@ == old(self).bodies@,
    {
        drop_swallowed(&mut self.debris, inside);
        proof {
            lemma_picked_len(old(self).debris@, Seq::new(inside@.len(), |i: int| outside_all(inside@[i]@)));
        }
    }
}


proof fn lemma_kept_len<T>(s: Seq<T>, m: Seq<bool>)
    ensures
        kept(s, m).len() <= s.len(),
    decreases s.len(),
{
    if s.len() > 0 {
        lemma_kept_len(s.drop_last(), m);
    }
}

proof fn lemma_picked_len<T>(s: Seq<T>, m: Seq<bool>)
    ensures
        picked(s, m).len() <= s.len(),
    decreases s.len(),
{
    if s.len() > 0 {
        lemma_picked_len(s.drop_last(), m);
    }
}

} // verus!
