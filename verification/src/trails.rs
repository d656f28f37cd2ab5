use vstd::prelude::*;

verus! {

/// Number of trail points drawn at most.
pub const MAX_TRAIL_POINTS: usize = 4000;

/// Whether the positions are recorded after integration step `s` of a
/// prediction that records every `interval` steps; the starting positions
/// (step 0) are always recorded.
pub open spec fn records_at(s: int, interval: int) -> bool {
    s == 0 || s % interval == 0
}

/// Whether a prediction that records positions every `interval` steps
/// records them after integration step `step` (step 0 stands for the starting
/// positions, which are always recorded).
pub fn records_after_step(step: usize, interval: usize) -> (r: bool)
    requires
        interval > 0 || step == 0,
    ensures
        r == records_at(step as int, interval as int),
{
    step == 0 || step % interval == 0
}

/// The kind of a trail, which fixes its colour and marker shape.
#[derive(Clone, Copy, PartialEq, Eq, Debug)]
pub enum TrailGroup {
    /// The predicted path of an existing black hole.
    BlackHole,
    /// The predicted path of an existing body.
    Body,
    /// The predicted path of the black hole about to be added.
    PreviewBlackHole,
    /// The predicted path of the body about to be added.
    PreviewBody,
}

/// One marker of a trail: which trail, which recorded point of it, and how
/// many points the trail has (the marker fades with `point / count`).
#[derive(Clone, Copy, PartialEq, Eq, Debug)]
pub struct TrailPoint {
    pub group: TrailGroup,
    pub trail: usize,
    pub point: usize,
    pub count: usize,
}

/// The colour code and the marker shape code of a trail kind: black holes
/// orange squares (0, 0), bodies cyan triangles (1, 1), the black hole about
/// to be added violet squares (3, 0), the body about to be added yellow
/// triangles (2, 1).
pub fn group_style(g: TrailGroup) -> (style: (u32, u32))
    ensures
        style == match g {
            TrailGroup::BlackHole => (0u32, 0u32),
            TrailGroup::Body => (1u32, 1u32),
            TrailGroup::PreviewBlackHole => (3u32, 0u32),
            TrailGroup::PreviewBody => (2u32, 1u32),
        },
{
    match g {
        TrailGroup::BlackHole => (0, 0),
        TrailGroup::Body => (1, 1),
        TrailGroup::PreviewBlackHole => (3, 0),
        TrailGroup::PreviewBody => (2, 1),
    }
}

/// The markers of one trail of `n` points.
pub open spec fn trail_markers(g: TrailGroup, t: int, n: int) -> Seq<TrailPoint> {
    Seq::new(n as nat, |p: int| TrailPoint { group: g, trail: t as usize, point: p as usize, count: n as usize })
}

/// The markers of the first `m` trails of a group whose trails have the
/// lengths `lens`, trail after trail.
pub open spec fn group_markers(g: TrailGroup, lens: Seq<usize>, m: int) -> Seq<TrailPoint>
    decreases m,
{
    if m <= 0 {
        Seq::empty()
    } else {
        group_markers(g, lens, m - 1) + trail_markers(g, m - 1, lens[m - 1] as int)
    }
}

/// The markers of an optional preview trail of the given length.
pub open spec fn preview_markers(g: TrailGroup, len: Option<usize>) -> Seq<TrailPoint> {
    match len {
        Some(n) => trail_markers(g, 0, n as int),
        None => Seq::empty(),
    }
}

/// All markers of the trail preview in drawing order, before the limit.
pub open spec fn all_markers(
    bh_lens: Seq<usize>,
    body_lens: Seq<usize>,
    preview_bh: Option<usize>,
    preview_body: Option<usize>,
) -> Seq<TrailPoint> {
    group_markers(TrailGroup::BlackHole, bh_lens, bh_lens.len() as int)
        + group_markers(TrailGroup::Body, body_lens, body_lens.len() as int)
        + preview_markers(TrailGroup::PreviewBlackHole, preview_bh)
        + preview_markers(TrailGroup::PreviewBody, preview_body)
}

fn push_trail(out: &mut Vec<TrailPoint>, g: TrailGroup, t: usize, n: usize)
    ensures
        final(out)@ == old(out)@ + trail_markers(g, t as int, n as int),
{
    let ghost start = out@;
    let mut p: usize = 0;
    while p < n
        invariant
            p <= n,
            out@ == start + Seq::new(p as nat, |x: int| TrailPoint { group: g, trail: t, point: x as usize, count: n }),
        decreases n - p,
    {
        out.push(TrailPoint { group: g, trail: t, point: p, count: n });
        p = p + 1;
        proof {
            assert(out@ =~= start + Seq::new(p as nat, |x: int| TrailPoint { group: g, trail: t, point: x as usize, count: n }));
        }
    }
    proof {
        assert(trail_markers(g, t as int, n as int) =~= Seq::new(n as nat, |x: int| TrailPoint { group: g, trail: t, point: x as usize, count: n }));
    }
}

fn push_group(out: &mut Vec<TrailPoint>, g: TrailGroup, lens: &Vec<usize>)
    ensures
        final(out)@ == old(out)@ + group_markers(g, lens@, lens@.len() as int),
{
    let ghost start = out@;
    let m = lens.len();
    let mut t: usize = 0;
    while t < m
        invariant
            m == lens@.len(),
            t <= m,
            out@ == start + group_markers(g, lens@, t as int),
        decreases m - t,
    {
        push_trail(out, g, t, lens[t]);
        t = t + 1;
        proof {
            assert(out@ =~= start + group_markers(g, lens@, t as int));
        }
    }
}

/// The markers of the trail preview, in drawing order: every point of every
/// black hole trail, then of every body trail, then of the trail of the black
/// hole about to be added, then of the body about to be added; at most
/// `MAX_TRAIL_POINTS` of them, the first ones.
pub fn plan_trail_points(
    bh_lens: &Vec<usize>,
    body_lens: &Vec<usize>,
    preview_bh: Option<usize>,
    preview_body: Option<usize>,
) -> (r: Vec<TrailPoint>)
    ensures
        ({
            let all = all_markers(bh_lens@, body_lens@, preview_bh, preview_body);
            r@ == all.take(if all.len() <= MAX_TRAIL_POINTS { all.len() as int } else { MAX_TRAIL_POINTS as int })
        }),
{
    let mut r: Vec<TrailPoint> = Vec::new();
    push_group(&mut r, TrailGroup::BlackHole, bh_lens);
    push_group(&mut r, TrailGroup::Body, body_lens);
    if let Some(n) = preview_bh {
        push_trail(&mut r, TrailGroup::PreviewBlackHole, 0, n);
    }
    if let Some(n) = preview_body {
        push_trail(&mut r, TrailGroup::PreviewBody, 0, n);
    }
    let ghost all = all_markers(bh_lens@, body_lens@, preview_bh, preview_body);
    proof {
        assert(r@ =~= all);
    }
    r.truncate(MAX_TRAIL_POINTS);
    proof {
        if all.len() <= MAX_TRAIL_POINTS {
            assert(all.take(all.len() as int) =~= all);
        }
    }
    r
}

} // verus!
