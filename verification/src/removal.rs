use vstd::prelude::*;

verus! {

/// The elements of `s` whose mark in `m` is false, in their order.
pub open spec fn kept<T>(s: Seq<T>, m: Seq<bool>) -> Seq<T>
    decreases s.len(),
{
    if s.len() == 0 {
        Seq::empty()
    } else {
        let rest = kept(s.drop_last(), m);
        if m[s.len() - 1] {
            rest
        } else {
            rest.push(s.last())
        }
    }
}

/// The elements of `s` whose mark in `m` is true, in their order.
pub open spec fn picked<T>(s: Seq<T>, m: Seq<bool>) -> Seq<T>
    decreases s.len(),
{
    if s.len() == 0 {
        Seq::empty()
    } else {
        let rest = picked(s.drop_last(), m);
        if m[s.len() - 1] {
            rest.push(s.last())
        } else {
            rest
        }
    }
}

/// The mark of each position: whether a target is set there.
pub open spec fn targeted(t: Seq<Option<usize>>) -> Seq<bool> {
    Seq::new(t.len(), |i: int| t[i] is Some)
}

/// The elements of `s` at the positions where `t` names a target, each paired
/// with that target, in their order.
pub open spec fn picked_with_target<T>(s: Seq<T>, t: Seq<Option<usize>>) -> Seq<(T, usize)>
    decreases s.len(),
{
    if s.len() == 0 {
        Seq::empty()
    } else {
        let rest = picked_with_target(s.drop_last(), t);
        match t[s.len() - 1] {
            Some(h) => rest.push((s.last(), h)),
            None => rest,
        }
    }
}

/// Removes from `v` the elements whose mark is set, keeping the order of the
/// others, and hands the removed elements back in their order.
pub fn split_marked<T>(v: &mut Vec<T>, marks: &Vec<bool>) -> (taken: Vec<T>)
    requires
        marks@.len() == old(v)@.len(),
    ensures
        final(v)@ == kept(old(v)@, marks@),
        taken@ == picked(old(v)@, marks@),
{
    let mut all: Vec<T> = Vec::new();
    std::mem::swap(&mut all, v);
    let ghost s = all@;
    let mut taken: Vec<T> = Vec::new();
    let n = marks.len();
    let mut i: usize = 0;
    for x in it: all
        invariant
            it.seq() == s,
            marks@.len() == s.len(),
            n == s.len(),
            i == it.index(),
            v@ == kept(s.take(i as int), marks@),
            taken@ == picked(s.take(i as int), marks@),
    {
        proof {
            assert(s.take(i as int + 1).drop_last() =~= s.take(i as int));
        }
        if marks[i] {
            taken.push(x);
        } else {
            v.push(x);
        }
        i = i + 1;
    }
    proof {
        assert(s.take(s.len() as int) =~= s);
    }
    taken
}

/// Keeps in `v` only the elements whose flag in `keep` is true.
pub fn retain_flagged<T>(v: &mut Vec<T>, keep: &Vec<bool>)
    requires
        keep@.len() == old(v)@.len(),
    ensures
        final(v)@ == picked(old(v)@, keep@),
{
    let mut all: Vec<T> = Vec::new();
    std::mem::swap(&mut all, v);
    let ghost s = all@;
    let n = keep.len();
    let mut i: usize = 0;
    for x in it: all
        invariant
            it.seq() == s,
            keep@.len() == s.len(),
            n == s.len(),
            i == it.index(),
            v@ == picked(s.take(i as int), keep@),
    {
        proof {
            assert(s.take(i as int + 1).drop_last() =~= s.take(i as int));
        }
        if keep[i] {
            v.push(x);
        }
        i = i + 1;
    }
    proof {
        assert(s.take(s.len() as int) =~= s);
    }
}

/// Removes from `v` the elements that have a target, keeping the order of the
/// others, and hands the removed ones back with their targets, in their order.
pub fn split_targeted<T>(v: &mut Vec<T>, targets: &Vec<Option<usize>>) -> (taken: Vec<(T, usize)>)
    requires
        targets@.len() == old(v)@.len(),
    ensures
        final(v)@ == kept(old(v)@, targeted(targets@)),
        taken@ == picked_with_target(old(v)@, targets@),
{
    let mut all: Vec<T> = Vec::new();
    std::mem::swap(&mut all, v);
    let ghost s = all@;
    let mut taken: Vec<(T, usize)> = Vec::new();
    let n = targets.len();
    let mut i: usize = 0;
    for x in it: all
        invariant
            it.seq() == s,
            targets@.len() == s.len(),
            n == s.len(),
            i == it.index(),
            v@ == kept(s.take(i as int), targeted(targets@)),
            taken@ == picked_with_target(s.take(i as int), targets@),
    {
        proof {
            assert(s.take(i as int + 1).drop_last() =~= s.take(i as int));
        }
        match targets[i] {
            Some(h) => taken.push((x, h)),
            None => v.push(x),
        }
        i = i + 1;
    }
    proof {
        assert(s.take(s.len() as int) =~= s);
    }
    taken
}

/// The elements of `v` in reverse order.
pub fn reversed<T>(v: Vec<T>) -> (r: Vec<T>)
    ensures
        r@ == v@.reverse(),
{
    let ghost s = v@;
    let n = v.len();
    let mut v = v;
    let mut r: Vec<T> = Vec::new();
    while v.len() > 0
        invariant
            n == s.len(),
            v@.len() <= n,
            v@ == s.take(v@.len() as int),
            r@ == Seq::new((n - v@.len()) as nat, |i: int| s[n - 1 - i]),
        decreases v@.len(),
    {
        let ghost k = v@.len() - 1;
        let x = v.pop().unwrap();
        proof {
            assert(x == s[k]);
        }
        r.push(x);
        proof {
            assert(r@ =~= Seq::new((n - v@.len()) as nat, |i: int| s[n - 1 - i]));
            assert(v@ =~= s.take(v@.len() as int));
        }
    }
    proof {
        if s.len() > 0 {
            assert(r@ =~= s.reverse());
        } else {
            assert(r@ =~= s.reverse());
        }
    }
    r
}

} // verus!
