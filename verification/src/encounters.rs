use vstd::prelude::*;

use crate::capture::rows_have_len;
use crate::population::{room, MAX_BODIES};
use crate::removal::{kept, split_marked};

verus! {

/// Whether `m` is a square table with `n` rows of `n` entries.
pub open spec fn square(m: Seq<Vec<bool>>, n: int) -> bool {
    m.len() == n && rows_have_len(m, n)
}

/// Whether `(i, j)` is a pair of positions `i < j` whose entry in `m` is set.
pub open spec fn flagged_pair(m: Seq<Vec<bool>>, i: int, j: int) -> bool {
    0 <= i < j < m.len() && m[i]@[j]
}

/// Whether the pair `(a, b)` comes before `(i, j)` in the order in which the
/// simulation scans pairs: by first position, then by second.
pub open spec fn scanned_before(a: int, b: int, i: int, j: int) -> bool {
    a < i || (a == i && b < j)
}

/// Returns the first pair `i < j` (in scanning order) whose entry in the
/// square table `close` is set, or `None` when there is none. This is the pair
/// of black holes that merges in a step: `close[i][j]` tells whether black
/// holes `i` and `j` are nearer than half the sum of their horizon radii.
pub fn first_close_pair(close: &Vec<Vec<bool>>) -> (r: Option<(usize, usize)>)
    requires
        square(close@, close@.len() as int),
    ensures
        match r {
            Some((i, j)) => flagged_pair(close@, i as int, j as int) && forall|a: int, b: int|
                #![trigger close@[a]@[b]]
                scanned_before(a, b, i as int, j as int) ==> !flagged_pair(close@, a, b),
            None => forall|a: int, b: int| #![trigger close@[a]@[b]] !flagged_pair(close@, a, b),
        },
{
    let n = close.len();
    let mut i: usize = 0;
    while i < n
        invariant
            n == close@.len(),
            square(close@, n as int),
            i <= n,
            forall|a: int, b: int| #![trigger close@[a]@[b]] 0 <= a < i ==> !flagged_pair(close@, a, b),
        decreases n - i,
    {
        let mut j: usize = i + 1;
        while j < n
            invariant
                n == close@.len(),
                square(close@, n as int),
                i < n,
                i + 1 <= j <= n,
                forall|a: int, b: int| #![trigger close@[a]@[b]] 0 <= a < i ==> !flagged_pair(close@, a, b),
                forall|b: int| #![trigger close@[i as int]@[b]] i < b < j ==> !flagged_pair(close@, i as int, b),
            decreases n - j,
        {
            if close[i][j] {
                return Some((i, j));
            }
            j = j + 1;
        }
        i = i + 1;
    }
    None
}

/// Replaces the two elements at positions `i < j` by `merged`, appended at
/// the end; the other elements keep their order.
pub fn merge_pair<T>(v: &mut Vec<T>, i: usize, j: usize, merged: T)
    requires
        i < j < old(v)@.len(),
    ensures
        final(v)@ == old(v)@.remove(j as int).remove(i as int).push(merged),
{
    v.remove(j);
    v.remove(i);
    v.push(merged);
}

/// Whether position `x` belongs to one of the first `upto` pairs of `pairs`.
pub open spec fn in_pairs(pairs: Seq<(usize, usize)>, upto: int, x: int) -> bool {
    exists|k: int| 0 <= k < upto && (pairs[k].0 == x || pairs[k].1 == x)
}

/// Whether `pairs` is the outcome of the collision scan over `n` bodies with
/// contact table `touch`: the scan visits the bodies in order; a body already
/// in a collision is skipped; otherwise it collides with the first later body
/// that it touches and that is not already in a collision.
pub open spec fn greedy_matching(touch: Seq<Vec<bool>>, n: int, pairs: Seq<(usize, usize)>) -> bool {
    // every pair is a touching pair, listed by increasing first position
    &&& forall|k: int| 0 <= k < pairs.len() ==> flagged_pair(touch, #[trigger] pairs[k].0 as int, pairs[k].1 as int)
    &&& forall|k: int, l: int| 0 <= k < l < pairs.len() ==> #[trigger] pairs[k].0 < #[trigger] pairs[l].0
    // no body is in two collisions
    &&& forall|k: int, l: int| #![trigger pairs[k], pairs[l]] 0 <= k < l < pairs.len() ==> pairs[k].0 != pairs[l].1
        && pairs[k].1 != pairs[l].0 && pairs[k].1 != pairs[l].1
    // a pair's second body is the first free body that its first body touches
    &&& forall|k: int, b: int| #![trigger pairs[k], touch[pairs[k].0 as int]@[b]]
        0 <= k < pairs.len() && pairs[k].0 < b < pairs[k].1 && touch[pairs[k].0 as int]@[b]
        ==> in_pairs(pairs, k, b)
    // a body left out of every collision touches no free later body
    &&& forall|i: int, b: int| #![trigger touch[i]@[b]]
        0 <= i < b < n && touch[i]@[b] && !in_pairs(pairs, pairs.len() as int, i)
        ==> exists|k: int| 0 <= k < pairs.len() && pairs[k].0 < i && (pairs[k].0 == b || pairs[k].1 == b)
}

/// Scans the bodies for collisions as the simulation does and returns the
/// colliding pairs: `touch[i][j]` tells whether bodies `i` and `j` are nearer
/// than the sum of their radii. Each body takes part in at most one collision.
pub fn collision_pairs(touch: &Vec<Vec<bool>>) -> (pairs: Vec<(usize, usize)>)
    requires
        square(touch@, touch@.len() as int),
    ensures
        greedy_matching(touch@, touch@.len() as int, pairs@),
{
    let n = touch.len();
    let mut pairs: Vec<(usize, usize)> = Vec::new();
    let mut used: Vec<bool> = Vec::new();
    let mut z: usize = 0;
    while z < n
        invariant
            z <= n,
            used@.len() == z,
            forall|x: int| 0 <= x < z ==> !used@[x],
        decreases n - z,
    {
        used.push(false);
        z = z + 1;
    }
    let mut i: usize = 0;
    while i < n
        invariant
            n == touch@.len(),
            square(touch@, n as int),
            i <= n,
            used@.len() == n,
            forall|x: int| 0 <= x < n ==> (used@[x] <==> in_pairs(pairs@, pairs@.len() as int, x)),
            forall|k: int| 0 <= k < pairs@.len() ==> flagged_pair(touch@, #[trigger] pairs@[k].0 as int, pairs@[k].1 as int),
            forall|k: int| 0 <= k < pairs@.len() ==> #[trigger] pairs@[k].0 < i,
            forall|k: int, l: int| 0 <= k < l < pairs@.len() ==> #[trigger] pairs@[k].0 < #[trigger] pairs@[l].0,
            forall|k: int, l: int| #![trigger pairs@[k], pairs@[l]] 0 <= k < l < pairs@.len() ==> pairs@[k].0 != pairs@[l].1
                && pairs@[k].1 != pairs@[l].0 && pairs@[k].1 != pairs@[l].1,
            forall|k: int, b: int| #![trigger pairs@[k], touch@[pairs@[k].0 as int]@[b]]
                0 <= k < pairs@.len() && pairs@[k].0 < b < pairs@[k].1 && touch@[pairs@[k].0 as int]@[b]
                ==> in_pairs(pairs@, k, b),
            forall|a: int, b: int| #![trigger touch@[a]@[b]]
                0 <= a < i && a < b < n && touch@[a]@[b] && !in_pairs(pairs@, pairs@.len() as int, a)
                ==> exists|k: int| 0 <= k < pairs@.len() && pairs@[k].0 < a && (pairs@[k].0 == b || pairs@[k].1 == b),
        decreases n - i,
    {
        if !used[i] {
            let ghost before = pairs@;
            let mut j: usize = i + 1;
            let mut found = false;
            while j < n && !found
                invariant
                    n == touch@.len(),
                    square(touch@, n as int),
                    i < n,
                    i + 1 <= j <= n,
                    !used@[i as int],
                    used@.len() == n,
                    found ==> j < n && !used@[j as int] && touch@[i as int]@[j as int],
                    forall|b: int| #![trigger touch@[i as int]@[b]]
                        i < b < j && touch@[i as int]@[b] ==> used@[b],
                decreases n - j + (if found { 0int } else { 1int }),
            {
                if !used[j] && touch[i][j] {
                    found = true;
                } else {
                    j = j + 1;
                }
            }
            if found {
                let ghost old_used = used@;
                pairs.push((i, j));
                used.set(i, true);
                used.set(j, true);
                proof {
                    let len = before.len() as int;
                    assert(pairs@ == before.push((i, j)));
                    assert(!in_pairs(before, len, i as int));
                    assert(!in_pairs(before, len, j as int));
                    assert forall|x: int| 0 <= x < n implies (used@[x] <==> in_pairs(pairs@, pairs@.len() as int, x)) by {
                        if in_pairs(pairs@, pairs@.len() as int, x) {
                            let k = choose|k: int| 0 <= k < pairs@.len() && (pairs@[k].0 == x || pairs@[k].1 == x);
                            if k < len {
                                assert(in_pairs(before, len, x));
                            }
                        }
                        if old_used[x] {
                            assert(in_pairs(before, len, x));
                            let k = choose|k: int| 0 <= k < len && (before[k].0 == x || before[k].1 == x);
                            assert(pairs@[k] == before[k]);
                        }
                        if x == i as int || x == j as int {
                            assert(pairs@[len] == (i, j));
                        }
                    }
                    assert forall|k: int, l: int| #![trigger pairs@[k], pairs@[l]] 0 <= k < l < pairs@.len() implies pairs@[k].0 != pairs@[l].1
                        && pairs@[k].1 != pairs@[l].0 && pairs@[k].1 != pairs@[l].1 by {
                        if l == len {
                            assert(pairs@[k] == before[k]);
                            if pairs@[k].0 == j || pairs@[k].1 == j || pairs@[k].1 == i {
                                assert(in_pairs(before, len, pairs@[k].1 as int) || in_pairs(before, len, pairs@[k].0 as int));
                            }
                            if pairs@[k].0 == j {
                                assert(in_pairs(before, len, j as int));
                            }
                            if pairs@[k].1 == j {
                                assert(in_pairs(before, len, j as int));
                            }
                            if pairs@[k].1 == i {
                                assert(in_pairs(before, len, i as int));
                            }
                        } else {
                            assert(pairs@[k] == before[k]);
                            assert(pairs@[l] == before[l]);
                        }
                    }
                    assert forall|k: int, b: int| #![trigger pairs@[k], touch@[pairs@[k].0 as int]@[b]]
                        0 <= k < pairs@.len() && pairs@[k].0 < b < pairs@[k].1 && touch@[pairs@[k].0 as int]@[b]
                        implies in_pairs(pairs@, k, b) by {
                        if k < len {
                            assert(pairs@[k] == before[k]);
                            assert(in_pairs(before, k, b));
                            let w = choose|w: int| 0 <= w < k && (before[w].0 == b || before[w].1 == b);
                            assert(pairs@[w] == before[w]);
                        } else {
                            assert(old_used[b]);
                            assert(in_pairs(before, len, b));
                            let w = choose|w: int| 0 <= w < len && (before[w].0 == b || before[w].1 == b);
                            assert(pairs@[w] == before[w]);
                        }
                    }
                    assert forall|a: int, b: int| #![trigger touch@[a]@[b]]
                        0 <= a < i + 1 && a < b < n && touch@[a]@[b] && !in_pairs(pairs@, pairs@.len() as int, a)
                        implies exists|k: int| 0 <= k < pairs@.len() && pairs@[k].0 < a && (pairs@[k].0 == b || pairs@[k].1 == b) by {
                        if a == i as int {
                            assert(pairs@[len] == (i, j));
                        } else {
                            if in_pairs(before, len, a) {
                                let w = choose|w: int| 0 <= w < len && (before[w].0 == a || before[w].1 == a);
                                assert(pairs@[w] == before[w]);
                            }
                            let w = choose|w: int| 0 <= w < len && before[w].0 < a && (before[w].0 == b || before[w].1 == b);
                            assert(pairs@[w] == before[w]);
                        }
                    }
                }
            } else {
                proof {
                    assert(pairs@ == before);
                    assert forall|a: int, b: int| #![trigger touch@[a]@[b]]
                        0 <= a < i + 1 && a < b < n && touch@[a]@[b] && !in_pairs(pairs@, pairs@.len() as int, a)
                        implies exists|k: int| 0 <= k < pairs@.len() && pairs@[k].0 < a && (pairs@[k].0 == b || pairs@[k].1 == b) by {
                        if a == i as int {
                            assert(used@[b]);
                            let w = choose|w: int| 0 <= w < pairs@.len() && (pairs@[w].0 == b || pairs@[w].1 == b);
                            assert(pairs@[w].0 < i);
                        }
                    }
                }
            }
        }
        i = i + 1;
    }
    pairs
}


/// Whether position `x` appears in some pair of `pairs`.
pub open spec fn in_any_pair(pairs: Seq<(usize, usize)>, x: int) -> bool {
    in_pairs(pairs, pairs.len() as int, x)
}

/// Removes from `v` every element whose position appears in one of `pairs`;
/// the others keep their order.
pub fn remove_paired<T>(v: &mut Vec<T>, pairs: &Vec<(usize, usize)>)
    ensures
        final(v)@ == kept(old(v)@, Seq::new(old(v)@.len(), |x: int| in_any_pair(pairs@, x))),
{
    let n = v.len();
    let mut marks: Vec<bool> = Vec::new();
    let mut z: usize = 0;
    while z < n
        invariant
            z <= n,
            marks@.len() == z,
            forall|x: int| 0 <= x < z ==> !marks@[x],
        decreases n - z,
    {
        marks.push(false);
        z = z + 1;
    }
    let np = pairs.len();
    let mut k: usize = 0;
    while k < np
        invariant
            np == pairs@.len(),
            k <= np,
            marks@.len() == n,
            forall|x: int| 0 <= x < n ==> (marks@[x] <==> in_pairs(pairs@, k as int, x)),
        decreases np - k,
    {
        let (a, b) = pairs[k];
        let ghost before = marks@;
        if a < n {
            marks.set(a, true);
        }
        if b < n {
            marks.set(b, true);
        }
        proof {
            assert forall|x: int| 0 <= x < n implies (marks@[x] <==> in_pairs(pairs@, k as int + 1, x)) by {
                if in_pairs(pairs@, k as int + 1, x) {
                    let w = choose|w: int| 0 <= w < k + 1 && (pairs@[w].0 == x || pairs@[w].1 == x);
                    if w < k {
                        assert(in_pairs(pairs@, k as int, x));
                    }
                }
                if before[x] {
                    let w = choose|w: int| 0 <= w < k && (pairs@[w].0 == x || pairs@[w].1 == x);
                    assert(in_pairs(pairs@, k as int + 1, x));
                }
                if x == a as int || x == b as int {
                    assert(pairs@[k as int] == (a, b));
                    assert(in_pairs(pairs@, k as int + 1, x));
                }
            }
        }
        k = k + 1;
    }
    proof {
        assert(marks@ =~= Seq::new(v@.len(), |x: int| in_any_pair(pairs@, x)));
    }
    split_marked(v, &marks);
}

/// How one collision ends: the two bodies merge into one, or shatter into
/// debris fragments.
pub enum CollisionOutcome<C, D> {
    /// The impact was gentle: the pair becomes this one body.
    Merge(C),
    /// The impact was violent: the pair breaks into these fragments.
    Shatter(Vec<D>),
}

/// The bodies formed by the merging collisions, in the order of the collisions.
pub open spec fn merged_of<C, D>(o: Seq<CollisionOutcome<C, D>>) -> Seq<C>
    decreases o.len(),
{
    if o.len() == 0 {
        Seq::empty()
    } else {
        let rest = merged_of(o.drop_last());
        match o.last() {
            CollisionOutcome::Merge(c) => rest.push(c),
            CollisionOutcome::Shatter(_) => rest,
        }
    }
}

/// The fragments of the shattering collisions, one collision after the other.
pub open spec fn fragments_of<C, D>(o: Seq<CollisionOutcome<C, D>>) -> Seq<D>
    decreases o.len(),
{
    if o.len() == 0 {
        Seq::empty()
    } else {
        let rest = fragments_of(o.drop_last());
        match o.last() {
            CollisionOutcome::Merge(_) => rest,
            CollisionOutcome::Shatter(f) => rest + f@,
        }
    }
}

/// The bodies after the collisions `pairs` with the outcomes `outcomes`: the
/// bodies in no pair, in their order, then the merged bodies while the list
/// has room.
pub open spec fn after_collisions<C, D>(
    bodies: Seq<C>,
    pairs: Seq<(usize, usize)>,
    outcomes: Seq<CollisionOutcome<C, D>>,
) -> Seq<C> {
    let rest = kept(bodies, Seq::new(bodies.len(), |x: int| in_any_pair(pairs, x)));
    rest + merged_of(outcomes).take(room(rest.len() as int, merged_of(outcomes).len() as int, MAX_BODIES as int))
}

/// Separates the outcomes of the collisions into the merged bodies and the
/// fragments, each in the order of the collisions.
pub fn split_outcomes<C, D>(outcomes: Vec<CollisionOutcome<C, D>>) -> (r: (Vec<C>, Vec<D>))
    ensures
        r.0@ == merged_of(outcomes@),
        r.1@ == fragments_of(outcomes@),
{
    let ghost s = outcomes@;
    let mut merged: Vec<C> = Vec::new();
    let mut fragments: Vec<D> = Vec::new();
    for o in it: outcomes
        invariant
            it.seq() == s,
            merged@ == merged_of(s.take(it.index() as int)),
            fragments@ == fragments_of(s.take(it.index() as int)),
    {
        proof {
            assert(s.take(it.index() as int + 1).drop_last() =~= s.take(it.index() as int));
        }
        match o {
            CollisionOutcome::Merge(c) => merged.push(c),
            CollisionOutcome::Shatter(f) => {
                let mut f = f;
                fragments.append(&mut f);
            },
        }
    }
    proof {
        assert(s.take(s.len() as int) =~= s);
    }
    (merged, fragments)
}

} // verus!
