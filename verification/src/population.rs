use vstd::prelude::*;

verus! {

/// Largest number of black holes the simulation holds at once.
pub const MAX_BH: usize = 8;

/// Largest number of ordinary bodies the simulation holds at once.
pub const MAX_BODIES: usize = 16;

/// Largest number of debris particles the simulation holds at once.
pub const MAX_DEBRIS: usize = 600;

/// How many of `n` new items fit behind `len` existing ones under the limit `cap`.
pub open spec fn room(len: int, n: int, cap: int) -> int {
    if len >= cap {
        0
    } else if cap - len < n {
        cap - len
    } else {
        n
    }
}

/// Appends `items` to `v` in order, each one only while `v` still holds fewer
/// than `cap` elements; the items that do not fit are dropped.
pub fn push_capped<T>(v: &mut Vec<T>, items: Vec<T>, cap: usize)
    ensures
        final(v)@ == old(v)@ + items@.take(room(old(v)@.len() as int, items@.len() as int, cap as int)),
{
    let ghost start = v@;
    let ghost all = items@;
    for x in it: items
        invariant
            it.seq() == all,
            v@ == start + all.take(room(start.len() as int, it.index() as int, cap as int)),
    {
        proof {
            assert(all.take(room(start.len() as int, it.index() as int + 1, cap as int)) =~= all.take(
                room(start.len() as int, it.index() as int, cap as int),
            ) + if v.len() < cap { seq![all[it.index() as int]] } else { Seq::empty() });
        }
        if v.len() < cap {
            v.push(x);
        }
    }
}

} // verus!
