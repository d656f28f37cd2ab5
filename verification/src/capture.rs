use vstd::prelude::*;

use crate::removal::{kept, picked, picked_with_target, retain_flagged, reversed, split_targeted, targeted};

verus! {

/// The first position of `row` that holds `true`, if there is one.
pub open spec fn first_true(row: Seq<bool>) -> Option<int> {
    if exists|k: int| 0 <= k < row.len() && row[k] {
        Some(choose|k: int| 0 <= k < row.len() && row[k] && forall|j: int| 0 <= j < k ==> !row[j])
    } else {
        None
    }
}

/// Returns the first position of `row` that holds `true`, or `None` when
/// every entry is `false`.
pub fn first_flagged(row: &Vec<bool>) -> (r: Option<usize>)
    ensures
        match r {
            Some(k) => k < row@.len() && row@[k as int] && forall|j: int| 0 <= j < k ==> !row@[j],
            None => forall|j: int| 0 <= j < row@.len() ==> !row@[j],
        },
{
    let n = row.len();
    let mut k: usize = 0;
    while k < n
        invariant
            n == row@.len(),
            k <= n,
            forall|j: int| 0 <= j < k ==> !row@[j],
        decreases n - k,
    {
        if row[k] {
            return Some(k);
        }
        k = k + 1;
    }
    None
}

/// Whether every row of `m` has exactly `cols` entries.
pub open spec fn rows_have_len(m: Seq<Vec<bool>>, cols: int) -> bool {
    forall|i: int| 0 <= i < m.len() ==> #[trigger] m[i]@.len() == cols
}

/// What happens to a body that has crossed a black hole's event horizon.
#[derive(Clone, Copy, PartialEq, Eq, Debug)]
pub enum HorizonVerdict {
    /// The body is outside every event horizon.
    Outside,
    /// The body is inside the horizon of the black hole with this index and,
    /// having a Roche limit beyond that horizon, is torn into debris.
    Disrupt(usize),
    /// The body is inside a horizon and compact enough to be swallowed whole.
    Absorb,
}

/// The verdict for one body, from its row of "inside the horizon of black hole
/// h" flags and its row of "Roche limit around h lies beyond the horizon" flags:
/// only the first black hole whose horizon holds the body counts.
pub open spec fn verdict_of(inside: Seq<bool>, tears: Seq<bool>) -> HorizonVerdict {
    match first_true(inside) {
        None => HorizonVerdict::Outside,
        Some(h) => if tears[h] {
            HorizonVerdict::Disrupt(h as usize)
        } else {
            HorizonVerdict::Absorb
        },
    }
}

/// Classifies every body against the event horizons: `inside[b][h]` tells
/// whether body `b` lies within the horizon of black hole `h`, `tears[b][h]`
/// whether the Roche limit of `h` for `b` lies beyond that horizon.
pub fn horizon_verdicts(inside: &Vec<Vec<bool>>, tears: &Vec<Vec<bool>>, n_bh: usize) -> (r: Vec<HorizonVerdict>)
    requires
        inside@.len() == tears@.len(),
        rows_have_len(inside@, n_bh as int),
        rows_have_len(tears@, n_bh as int),
    ensures
        r@.len() == inside@.len(),
        forall|b: int| 0 <= b < r@.len() ==> #[trigger] r@[b] == verdict_of(inside@[b]@, tears@[b]@),
{
    let n = inside.len();
    let mut r: Vec<HorizonVerdict> = Vec::new();
    let mut b: usize = 0;
    while b < n
        invariant
            n == inside@.len(),
            inside@.len() == tears@.len(),
            rows_have_len(inside@, n_bh as int),
            rows_have_len(tears@, n_bh as int),
            b <= n,
            r@.len() == b,
            forall|c: int| 0 <= c < b ==> #[trigger] r@[c] == verdict_of(inside@[c]@, tears@[c]@),
        decreases n - b,
    {
        let row = &inside[b];
        let first = first_flagged(row);
        proof {
            lemma_first_flagged_is_first_true(row@, first);
        }
        let v = match first {
            None => HorizonVerdict::Outside,
            Some(h) => if tears[b][h] {
                HorizonVerdict::Disrupt(h)
            } else {
                HorizonVerdict::Absorb
            },
        };
        r.push(v);
        b = b + 1;
    }
    r
}



/// The mark of each body that a verdict captures: disrupted or absorbed.
pub open spec fn captured(v: Seq<HorizonVerdict>) -> Seq<bool> {
    Seq::new(v.len(), |b: int| !(v[b] is Outside))
}

/// For each body, the black hole that tears it apart, if its verdict is a
/// disruption.
pub open spec fn disrupt_targets(v: Seq<HorizonVerdict>) -> Seq<Option<usize>> {
    Seq::new(v.len(), |b: int| match v[b] {
        HorizonVerdict::Disrupt(h) => Some(h),
        _ => None,
    })
}

/// Applies the horizon verdicts to the bodies: every captured body (disrupted
/// or absorbed) leaves the list, removed by its position in the list as it
/// was, and the bodies outside every horizon keep their order. The disrupted
/// bodies come back, each with the black hole that tears it apart, from the
/// back of the list to the front.
pub fn apply_horizon_verdicts<T>(bodies: &mut Vec<T>, verdicts: &Vec<HorizonVerdict>) -> (torn: Vec<(T, usize)>)
    requires
        verdicts@.len() == old(bodies)@.len(),
    ensures
        final(bodies)@ == kept(old(bodies)@, captured(verdicts@)),
        torn@ == picked_with_target(old(bodies)@, disrupt_targets(verdicts@)).reverse(),
{
    let mut all: Vec<T> = Vec::new();
    std::mem::swap(&mut all, bodies);
    let ghost s = all@;
    let ghost vs = verdicts@;
    let mut taken: Vec<(T, usize)> = Vec::new();
    let n = verdicts.len();
    let mut i: usize = 0;
    for x in it: all
        invariant
            it.seq() == s,
            vs.len() == s.len(),
            verdicts@ == vs,
            n == s.len(),
            i == it.index(),
            bodies@ == kept(s.take(i as int), captured(vs)),
            taken@ == picked_with_target(s.take(i as int), disrupt_targets(vs)),
    {
        proof {
            assert(s.take(i as int + 1).drop_last() =~= s.take(i as int));
        }
        match verdicts[i] {
            HorizonVerdict::Outside => bodies.push(x),
            HorizonVerdict::Disrupt(h) => taken.push((x, h)),
            HorizonVerdict::Absorb => {},
        }
        i = i + 1;
    }
    proof {
        assert(s.take(s.len() as int) =~= s);
    }
    reversed(taken)
}


/// For each row of `m`, the first position holding `true`, if any.
pub open spec fn first_targets(m: Seq<Vec<bool>>) -> Seq<Option<usize>> {
    Seq::new(m.len(), |b: int| match first_true(m[b]@) {
        Some(h) => Some(h as usize),
        None => None,
    })
}

pub proof fn lemma_first_flagged_is_first_true(row: Seq<bool>, r: Option<usize>)
    requires
        match r {
            Some(k) => k < row.len() && row[k as int] && forall|j: int| 0 <= j < k ==> !row[j],
            None => forall|j: int| 0 <= j < row.len() ==> !row[j],
        },
    ensures
        match first_true(row) {
            Some(h) => r == Some(h as usize),
            None => r is None,
        },
{
    match r {
        Some(h) => {
            assert(exists|k: int| 0 <= k < row.len() && row[k]);
            let c = choose|k: int| 0 <= k < row.len() && row[k] && forall|j: int| 0 <= j < k ==> !row[j];
            if c < h as int {
            } else if (h as int) < c {
                assert(!row[h as int]);
            }
        },
        None => {},
    }
}

/// For each row of `m`, the first position holding `true`.
pub fn first_flags_per_row(m: &Vec<Vec<bool>>) -> (r: Vec<Option<usize>>)
    ensures
        r@ == first_targets(m@),
{
    let n = m.len();
    let mut r: Vec<Option<usize>> = Vec::new();
    let mut b: usize = 0;
    while b < n
        invariant
            n == m@.len(),
            b <= n,
            r@ =~= first_targets(m@).take(b as int),
        decreases n - b,
    {
        let f = first_flagged(&m[b]);
        proof {
            lemma_first_flagged_is_first_true(m@[b as int]@, f);
        }
        r.push(f);
        b = b + 1;
    }
    r
}

/// Tears apart the bodies that have come within the Roche limit of a black
/// hole: `within[b][h]` tells whether body `b` lies inside the Roche limit of
/// black hole `h`, and only the first such black hole counts. The affected
/// bodies leave the list (the others keep their order) and come back, each
/// with its black hole, in decreasing order of their positions.
pub fn take_roche_victims<T>(bodies: &mut Vec<T>, within: &Vec<Vec<bool>>) -> (torn: Vec<(T, usize)>)
    requires
        within@.len() == old(bodies)@.len(),
    ensures
        final(bodies)@ == kept(old(bodies)@, targeted(first_targets(within@))),
        torn@ == picked_with_target(old(bodies)@, first_targets(within@)).reverse(),
{
    let targets = first_flags_per_row(within);
    let up = split_targeted(bodies, &targets);
    reversed(up)
}

/// Whether a row of "inside the horizon of black hole h" flags is all `false`.
pub open spec fn outside_all(row: Seq<bool>) -> bool {
    forall|h: int| 0 <= h < row.len() ==> !row[h]
}

/// Drops the debris particles that lie inside some event horizon:
/// `inside[i][h]` tells whether particle `i` lies inside the horizon of black
/// hole `h`. The particles that remain keep their order.
pub fn drop_swallowed<T>(debris: &mut Vec<T>, inside: &Vec<Vec<bool>>)
    requires
        inside@.len() == old(debris)@.len(),
    ensures
        final(debris)@ == picked(old(debris)@, Seq::new(inside@.len(), |i: int| outside_all(inside@[i]@))),
{
    let n = inside.len();
    let mut keep: Vec<bool> = Vec::new();
    let mut i: usize = 0;
    while i < n
        invariant
            n == inside@.len(),
            i <= n,
            keep@ =~= Seq::new(inside@.len(), |j: int| outside_all(inside@[j]@)).take(i as int),
        decreases n - i,
    {
        let f = first_flagged(&inside[i]);
        keep.push(f.is_none());
        i = i + 1;
    }
    proof {
        assert(keep@ =~= Seq::new(inside@.len(), |j: int| outside_all(inside@[j]@)));
    }
    retain_flagged(debris, &keep);
}


} // verus!
