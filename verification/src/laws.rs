use vstd::prelude::*;

use crate::removal::{kept, picked, picked_with_target};
use crate::population::room;
use crate::capture::{captured, disrupt_targets, first_true, verdict_of, HorizonVerdict};
use crate::simulation::{spawn_outcome, SpawnError};
use crate::mesh::{sphere_bands, sphere_band, sphere_cell, ring_triangles};
use crate::trails::{all_markers, group_markers, records_at, TrailGroup, TrailPoint};
use crate::input::without_id;
use crate::draw::{frame_objects, min_int, planned_blocks, planned_calls, DrawSource, MAX_OBJECTS, OBJECT_BLACK_HOLE, OBJECT_BODY};
use crate::encounters::{greedy_matching, in_pairs, in_any_pair, flagged_pair, after_collisions, merged_of, CollisionOutcome};
use vstd::arithmetic::div_mod::{lemma_fundamental_div_mod, lemma_fundamental_div_mod_converse};

verus! {

/// A merger of two black holes leaves one black hole fewer, and the merged
/// one comes last.
pub proof fn law_merge_leaves_one_fewer<T>(s: Seq<T>, i: int, j: int, merged: T)
    requires
        0 <= i < j < s.len(),
    ensures
        s.remove(j).remove(i).push(merged).len() == s.len() - 1,
        s.remove(j).remove(i).push(merged).last() == merged,
{
}

/// Splitting a list by marks loses nothing: the kept and the picked elements
/// together are as many as the list held.
pub proof fn law_split_conserves_count<T>(s: Seq<T>, m: Seq<bool>)
    ensures
        kept(s, m).len() + picked(s, m).len() == s.len(),
    decreases s.len(),
{
    if s.len() > 0 {
        law_split_conserves_count(s.drop_last(), m);
    }
}

proof fn lemma_kept_is_picked_of_negation<T>(s: Seq<T>, m: Seq<bool>, n: Seq<bool>)
    requires
        s.len() <= m.len(),
        s.len() <= n.len(),
        forall|p: int| 0 <= p < s.len() ==> n[p] == !m[p],
    ensures
        kept(s, m) == picked(s, n),
    decreases s.len(),
{
    if s.len() > 0 {
        lemma_kept_is_picked_of_negation(s.drop_last(), m, n);
    }
}

proof fn lemma_targets_picked<T>(s: Seq<T>, t: Seq<Option<usize>>, m: Seq<bool>)
    requires
        s.len() <= t.len(),
        s.len() <= m.len(),
        forall|p: int| 0 <= p < s.len() ==> m[p] == (t[p] is Some),
    ensures
        picked_with_target(s, t).map_values(|e: (T, usize)| e.0) == picked(s, m),
    decreases s.len(),
{
    if s.len() > 0 {
        lemma_targets_picked(s.drop_last(), t, m);
        let rest = picked_with_target(s.drop_last(), t);
        match t[s.len() - 1] {
            Some(h) => {
                assert(rest.push((s.last(), h)).map_values(|e: (T, usize)| e.0)
                    =~= rest.map_values(|e: (T, usize)| e.0).push(s.last()));
            },
            None => {},
        }
    }
}

/// Applying the horizon verdicts removes exactly the captured bodies: what
/// remains are the bodies outside every horizon, in their order, one body
/// fewer for each captured one; and the bodies handed over for disruption are
/// exactly those whose verdict is a disruption, each once.
pub proof fn law_horizon_removes_exactly_captured<T>(s: Seq<T>, v: Seq<HorizonVerdict>)
    requires
        v.len() == s.len(),
    ensures
        kept(s, captured(v)) == picked(s, Seq::new(v.len(), |b: int| v[b] is Outside)),
        kept(s, captured(v)).len() == s.len() - count_true(captured(v)),
        picked_with_target(s, disrupt_targets(v)).map_values(|e: (T, usize)| e.0)
            == picked(s, Seq::new(v.len(), |b: int| v[b] is Disrupt)),
{
    lemma_kept_is_picked_of_negation(s, captured(v), Seq::new(v.len(), |b: int| v[b] is Outside));
    lemma_kept_len_count(s, captured(v));
    lemma_targets_picked(s, disrupt_targets(v), Seq::new(v.len(), |b: int| v[b] is Disrupt));
}

proof fn lemma_first_true_is_first(row: Seq<bool>)
    ensures
        match first_true(row) {
            Some(h) => 0 <= h < row.len() && row[h] && forall|j: int| 0 <= j < h ==> !row[j],
            None => forall|j: int| 0 <= j < row.len() ==> !row[j],
        },
        forall|h: int| 0 <= h < row.len() && row[h] && (forall|j: int| 0 <= j < h ==> !row[j])
            ==> first_true(row) == Some(h),
{
    if exists|k: int| 0 <= k < row.len() && row[k] {
        let k = choose|k: int| 0 <= k < row.len() && row[k];
        lemma_least_true(row, k);
        let c = choose|c: int| 0 <= c < row.len() && row[c] && forall|j: int| 0 <= j < c ==> !row[j];
        assert forall|h: int| 0 <= h < row.len() && row[h] && (forall|j: int| 0 <= j < h ==> !row[j])
            implies first_true(row) == Some(h) by {
            if h < c {
                assert(!row[h]);
            } else if c < h {
                assert(!row[c]);
            }
        }
    }
}

proof fn lemma_least_true(row: Seq<bool>, k: int)
    requires
        0 <= k < row.len(),
        row[k],
    ensures
        exists|c: int| 0 <= c < row.len() && row[c] && forall|j: int| 0 <= j < c ==> !row[j],
    decreases k,
{
    if exists|j: int| 0 <= j < k && row[j] {
        let j = choose|j: int| 0 <= j < k && row[j];
        lemma_least_true(row, j);
    } else {
        assert(0 <= k < row.len() && row[k] && forall|j: int| 0 <= j < k ==> !row[j]);
    }
}

/// The horizon verdict of a body follows the first black hole whose horizon
/// holds it: a body inside no horizon stays outside; otherwise, if `h` is the
/// first black hole whose horizon holds the body, the body is torn apart by
/// `h` when the Roche limit of `h` lies beyond its horizon and swallowed whole
/// otherwise. In particular the black hole that tears a body apart always has
/// the body inside its horizon, whatever the Roche limits of the others.
pub proof fn law_horizon_verdict_follows_first_horizon(inside: Seq<bool>, tears: Seq<bool>)
    requires
        inside.len() == tears.len(),
        inside.len() <= usize::MAX,
    ensures
        (verdict_of(inside, tears) is Outside) <==> (forall|h: int| 0 <= h < inside.len() ==> !inside[h]),
        forall|h: int| 0 <= h < inside.len() && inside[h] && (forall|j: int| 0 <= j < h ==> !inside[j]) ==>
            verdict_of(inside, tears) == (if tears[h] { HorizonVerdict::Disrupt(h as usize) } else { HorizonVerdict::Absorb }),
        forall|k: usize| verdict_of(inside, tears) == HorizonVerdict::Disrupt(k) ==>
            k < inside.len() && inside[k as int] && tears[k as int],
{
    lemma_first_true_is_first(inside);
}

/// A spawn check admits a newcomer exactly when the list is below its limit
/// and nothing is in the way; it reports a full list exactly when the list
/// holds `cap` objects or more; and a refusal for being too close names the
/// first black hole (or, when no black hole is in the way, the first body)
/// that is in the way.
pub proof fn law_spawn_admits_below_capacity(count: int, cap: usize, near_bh: Seq<bool>, near_body: Seq<bool>)
    requires
        near_bh.len() <= usize::MAX,
        near_body.len() <= usize::MAX,
    ensures
        spawn_outcome(count, cap, near_bh, near_body) is Ok <==> (count < cap
            && (forall|h: int| 0 <= h < near_bh.len() ==> !near_bh[h])
            && (forall|b: int| 0 <= b < near_body.len() ==> !near_body[b])),
        (spawn_outcome(count, cap, near_bh, near_body) == Err::<(), SpawnError>(SpawnError::AtCapacity { max: cap }))
            <==> count >= cap,
        forall|x: usize| spawn_outcome(count, cap, near_bh, near_body)
            == Err::<(), SpawnError>(SpawnError::TooCloseToBlackHole { index: x }) ==>
            count < cap && x < near_bh.len() && near_bh[x as int] && forall|j: int| 0 <= j < x ==> !near_bh[j],
        forall|x: usize| spawn_outcome(count, cap, near_bh, near_body)
            == Err::<(), SpawnError>(SpawnError::TooCloseToBody { index: x }) ==>
            count < cap && (forall|h: int| 0 <= h < near_bh.len() ==> !near_bh[h])
            && x < near_body.len() && near_body[x as int] && forall|j: int| 0 <= j < x ==> !near_body[j],
{
    lemma_first_true_is_first(near_bh);
    lemma_first_true_is_first(near_body);
}

/// The gravitational-wave objects of a frame depend on whether waves are
/// shown and on the wave objects alone, not on whether bodies are shown: when
/// waves are shown, wave object `w` has the block right after the bodies' ones
/// (none when bodies are hidden), carries its own object type, and is drawn
/// from that block whenever the block is written; when waves are hidden, no
/// block or draw comes from a wave object.
#[verifier::spinoff_prover]
#[verifier::rlimit(40)]
pub proof fn law_waves_do_not_depend_on_bodies(
    show_bodies: bool,
    n_bodies: int,
    show_waves: bool,
    wave_types: Seq<u32>,
    n_black_holes: int,
    preview_body: bool,
    preview_black_hole: bool,
    show_background: bool,
    w: int,
)
    requires
        0 <= n_bodies <= usize::MAX,
        0 <= n_black_holes <= usize::MAX,
        wave_types.len() <= usize::MAX,
    ensures
        ({
            let objs = frame_objects(show_bodies, n_bodies, show_waves, wave_types, n_black_holes,
                preview_body, preview_black_hole);
            let q = (if show_bodies { n_bodies } else { 0int }) + w;
            &&& show_waves && 0 <= w < wave_types.len() ==> q < objs.len()
                && objs[q] == (DrawSource::Wave(w as usize), wave_types[w])
            &&& show_waves && 0 <= w < wave_types.len() && q < MAX_OBJECTS ==>
                planned_blocks(objs, show_background)[q] == DrawSource::Wave(w as usize)
                && planned_calls(objs)[q].1 == wave_types[w]
            &&& forall|k: int, x: usize| 0 <= k < objs.len() && objs[k].0 == DrawSource::Wave(x) ==>
                show_waves && x < wave_types.len() && objs[k].1 == wave_types[x as int]
        }),
{
    let a = if show_bodies {
        Seq::new(n_bodies as nat, |b: int| (DrawSource::Body(b as usize), 4u32))
    } else {
        Seq::empty()
    };
    let objs = frame_objects(show_bodies, n_bodies, show_waves, wave_types, n_black_holes,
        preview_body, preview_black_hole);
    let q = (if show_bodies { n_bodies } else { 0int }) + w;
    assert(a.len() == (if show_bodies { n_bodies } else { 0int }));
    if show_waves && 0 <= w < wave_types.len() {
        assert(objs[q] == (DrawSource::Wave(w as usize), wave_types[w]));
        if q < MAX_OBJECTS {
            let blocks = objs.map_values(|o: (DrawSource, u32)| o.0)
                + if show_background && objs.len() < MAX_OBJECTS { seq![DrawSource::Background] } else { Seq::empty() };
            assert(blocks[q] == DrawSource::Wave(w as usize));
            assert(q < min_int(blocks.len() as int, MAX_OBJECTS as int));
        }
    }
    assert forall|k: int, x: usize| 0 <= k < objs.len() && objs[k].0 == DrawSource::Wave(x) implies
        show_waves && x < wave_types.len() && objs[k].1 == wave_types[x as int] by {
        if k < a.len() {
            assert(objs[k] == a[k]);
        }
    }
}

proof fn lemma_group_markers_kind(g: TrailGroup, lens: Seq<usize>, m: int)
    requires
        0 <= m <= lens.len(),
        lens.len() <= usize::MAX,
    ensures
        forall|k: int| 0 <= k < group_markers(g, lens, m).len() ==> {
            let mk = #[trigger] group_markers(g, lens, m)[k];
            &&& mk.group == g
            &&& mk.trail < m
            &&& mk.count == lens[mk.trail as int]
            &&& mk.point < mk.count
        },
    decreases m,
{
    if m > 0 {
        lemma_group_markers_kind(g, lens, m - 1);
        let prev = group_markers(g, lens, m - 1);
        assert forall|k: int| 0 <= k < group_markers(g, lens, m).len() implies {
            let mk = #[trigger] group_markers(g, lens, m)[k];
            &&& mk.group == g
            &&& mk.trail < m
            &&& mk.count == lens[mk.trail as int]
            &&& mk.point < mk.count
        } by {
            if k < prev.len() {
                assert(group_markers(g, lens, m)[k] == prev[k]);
            }
        }
    }
}

/// The length of an optional preview trail, zero when there is none.
pub open spec fn preview_len(len: Option<usize>) -> int {
    match len {
        Some(n) => n as int,
        None => 0,
    }
}

/// The trail markers keep the kind of the trail they come from: the last
/// markers are those of the body about to be added, one per point of its
/// trail and all of the kind `PreviewBody`; just before them come those of the
/// black hole about to be added, one per point of its trail and all of the
/// kind `PreviewBlackHole`; no other marker has either preview kind. Before
/// them come the markers of the black hole trails, then those of the body
/// trails, each naming an existing trail of its kind, that trail's length and
/// one of its points.
pub proof fn law_preview_markers_keep_their_kind(
    bh_lens: Seq<usize>,
    body_lens: Seq<usize>,
    preview_bh: Option<usize>,
    preview_body: Option<usize>,
)
    requires
        bh_lens.len() <= usize::MAX,
        body_lens.len() <= usize::MAX,
    ensures
        ({
            let all = all_markers(bh_lens, body_lens, preview_bh, preview_body);
            let nb = preview_len(preview_body);
            let nh = preview_len(preview_bh);
            &&& nb + nh <= all.len()
            &&& forall|p: int| 0 <= p < nb ==> #[trigger] all[all.len() - nb + p]
                == (TrailPoint { group: TrailGroup::PreviewBody, trail: 0, point: p as usize, count: nb as usize })
            &&& forall|p: int| 0 <= p < nh ==> #[trigger] all[all.len() - nb - nh + p]
                == (TrailPoint { group: TrailGroup::PreviewBlackHole, trail: 0, point: p as usize, count: nh as usize })
            &&& forall|k: int| 0 <= k < all.len() ==>
                ((#[trigger] all[k]).group == TrailGroup::PreviewBody <==> all.len() - nb <= k)
            &&& forall|k: int| 0 <= k < all.len() ==>
                ((#[trigger] all[k]).group == TrailGroup::PreviewBlackHole <==> all.len() - nb - nh <= k < all.len() - nb)
            &&& forall|k: int| 0 <= k < all.len() - nb - nh ==>
                ((#[trigger] all[k]).group == TrailGroup::BlackHole || all[k].group == TrailGroup::Body)
            &&& forall|k: int| 0 <= k < all.len() && (#[trigger] all[k]).group == TrailGroup::BlackHole ==>
                all[k].trail < bh_lens.len() && all[k].count == bh_lens[all[k].trail as int] && all[k].point < all[k].count
            &&& forall|k: int| 0 <= k < all.len() && (#[trigger] all[k]).group == TrailGroup::Body ==>
                all[k].trail < body_lens.len() && all[k].count == body_lens[all[k].trail as int] && all[k].point < all[k].count
            &&& forall|k1: int, k2: int| 0 <= k1 < k2 < all.len() && (#[trigger] all[k1]).group == TrailGroup::Body
                ==> (#[trigger] all[k2]).group != TrailGroup::BlackHole
        }),
{
    let gb = group_markers(TrailGroup::BlackHole, bh_lens, bh_lens.len() as int);
    let gc = group_markers(TrailGroup::Body, body_lens, body_lens.len() as int);
    lemma_group_markers_kind(TrailGroup::BlackHole, bh_lens, bh_lens.len() as int);
    lemma_group_markers_kind(TrailGroup::Body, body_lens, body_lens.len() as int);
    let all = all_markers(bh_lens, body_lens, preview_bh, preview_body);
    let nb = preview_len(preview_body);
    let nh = preview_len(preview_bh);
    assert forall|k: int| 0 <= k < gb.len() + gc.len() implies
        (k < gb.len() ==> all[k] == gb[k]) && (k >= gb.len() ==> all[k] == gc[k - gb.len()]) by {
        if k < gb.len() {
            assert(all[k] == gb[k]);
        } else {
            assert(all[k] == gc[k - gb.len()]);
        }
    }
}

/// The objects of a frame come in a fixed order, each with its own object
/// type: the bodies (only when bodies are shown) as bodies, then the wave
/// objects (only when waves are shown), then the black holes (only when
/// bodies are shown) as black holes, then the body about to be added as a
/// body, then the black hole about to be added as a black hole; nothing else.
#[verifier::spinoff_prover]
#[verifier::rlimit(40)]
pub proof fn law_frame_objects_in_order(
    show_bodies: bool,
    n_bodies: int,
    show_waves: bool,
    wave_types: Seq<u32>,
    n_black_holes: int,
    preview_body: bool,
    preview_black_hole: bool,
)
    requires
        0 <= n_bodies <= usize::MAX,
        0 <= n_black_holes <= usize::MAX,
    ensures
        ({
            let objs = frame_objects(show_bodies, n_bodies, show_waves, wave_types, n_black_holes,
                preview_body, preview_black_hole);
            let nb = if show_bodies { n_bodies } else { 0int };
            let nw = if show_waves { wave_types.len() as int } else { 0int };
            let nh = if show_bodies { n_black_holes } else { 0int };
            let pb = if preview_body { 1int } else { 0int };
            let ph = if preview_black_hole { 1int } else { 0int };
            &&& objs.len() == nb + nw + nh + pb + ph
            &&& forall|b: int| 0 <= b < nb ==> #[trigger] objs[b] == (DrawSource::Body(b as usize), OBJECT_BODY)
            &&& forall|h: int| 0 <= h < nh ==>
                #[trigger] objs[nb + nw + h] == (DrawSource::BlackHole(h as usize), OBJECT_BLACK_HOLE)
            &&& preview_body ==> objs[nb + nw + nh] == (DrawSource::PreviewBody, OBJECT_BODY)
            &&& preview_black_hole ==> objs[nb + nw + nh + pb] == (DrawSource::PreviewBlackHole, OBJECT_BLACK_HOLE)
        }),
{
    let objs = frame_objects(show_bodies, n_bodies, show_waves, wave_types, n_black_holes,
        preview_body, preview_black_hole);
    let nb = if show_bodies { n_bodies } else { 0int };
    let nw = if show_waves { wave_types.len() as int } else { 0int };
    let a = if show_bodies {
        Seq::new(n_bodies as nat, |b: int| (DrawSource::Body(b as usize), OBJECT_BODY))
    } else {
        Seq::empty()
    };
    let w = if show_waves {
        Seq::new(wave_types.len(), |x: int| (DrawSource::Wave(x as usize), wave_types[x]))
    } else {
        Seq::empty()
    };
    let c = if show_bodies {
        Seq::new(n_black_holes as nat, |h: int| (DrawSource::BlackHole(h as usize), OBJECT_BLACK_HOLE))
    } else {
        Seq::empty()
    };
    assert forall|b: int| 0 <= b < nb implies #[trigger] objs[b] == (DrawSource::Body(b as usize), OBJECT_BODY) by {
        assert(objs[b] == a[b]);
    }
    assert forall|h: int| 0 <= h < c.len() implies
        #[trigger] objs[nb + nw + h] == (DrawSource::BlackHole(h as usize), OBJECT_BLACK_HOLE) by {
        assert(objs[nb + nw + h] == (a + w + c)[nb + nw + h]);
        assert((a + w + c)[nb + nw + h] == c[h]);
    }
}

/// The step of a prediction after which the positions are recorded are
/// exactly the multiples of the sampling interval (step 0, the start, among them).
pub proof fn law_samples_are_the_multiples(s: int, interval: int)
    requires
        s >= 0,
        interval > 0,
    ensures
        records_at(s, interval) <==> exists|k: int| k >= 0 && s == #[trigger] (k * interval),
{
    if records_at(s, interval) {
        lemma_fundamental_div_mod(s, interval);
        let k = s / interval;
        assert(s == k * interval) by (nonlinear_arith)
            requires s == interval * k + s % interval, s % interval == 0;
        assert(k >= 0) by (nonlinear_arith)
            requires s == k * interval, s >= 0, interval > 0;
    }
    if exists|k: int| k >= 0 && s == #[trigger] (k * interval) {
        let k = choose|k: int| k >= 0 && s == #[trigger] (k * interval);
        lemma_fundamental_div_mod_converse(s, interval, k, 0);
    }
}

/// A capped append takes as many new items as fit: none into a full list,
/// all of them when they fit under the limit, otherwise exactly enough to
/// fill the list up to its limit.
pub proof fn law_capped_append_fills_up_to_the_limit(len: int, n: int, cap: int)
    requires
        0 <= len,
        0 <= n,
    ensures
        0 <= room(len, n, cap) <= n,
        len >= cap ==> room(len, n, cap) == 0,
        len + n <= cap ==> room(len, n, cap) == n,
        len < cap < len + n ==> len + room(len, n, cap) == cap,
        len <= cap ==> len + room(len, n, cap) <= cap,
{
}

/// Whether every entry of `s` is a valid index below `bound`.
pub open spec fn all_below(s: Seq<int>, bound: int) -> bool {
    forall|k: int| 0 <= k < s.len() ==> 0 <= #[trigger] s[k] < bound
}

/// How many triangle corners latitude band `i` of a sphere with `stacks`
/// bands contributes per quad.
pub open spec fn corners_per_quad(stacks: int, i: int) -> int {
    (if i != 0 { 3int } else { 0int }) + (if i != stacks - 1 { 3int } else { 0int })
}

#[verifier::spinoff_prover]
proof fn lemma_band(sectors: int, stacks: int, i: int, m: int)
    requires
        0 <= i < stacks,
        0 <= m <= sectors,
    ensures
        sphere_band(sectors, stacks, i, m).len() == m * corners_per_quad(stacks, i),
        all_below(sphere_band(sectors, stacks, i, m), (stacks + 1) * (sectors + 1)),
    decreases m,
{
    if m > 0 {
        lemma_band(sectors, stacks, i, m - 1);
        let j = m - 1;
        let k1 = i * (sectors + 1);
        let k2 = k1 + sectors + 1;
        assert(0 <= i * (sectors + 1)) by (nonlinear_arith)
            requires 0 <= i, 0 <= sectors;
        assert(k2 + j + 1 < (stacks + 1) * (sectors + 1)) by (nonlinear_arith)
            requires k2 == i * (sectors + 1) + sectors + 1, i + 1 <= stacks, 0 <= j < sectors;
        let prev = sphere_band(sectors, stacks, i, m - 1);
        let cell = sphere_cell(sectors, stacks, i, j);
        assert(cell.len() == corners_per_quad(stacks, i));
        assert((m - 1) * corners_per_quad(stacks, i) + corners_per_quad(stacks, i) == m * corners_per_quad(stacks, i))
            by (nonlinear_arith);
        assert forall|k: int| 0 <= k < (prev + cell).len() implies
            0 <= #[trigger] (prev + cell)[k] < (stacks + 1) * (sectors + 1) by {
            if k >= prev.len() {
                assert(0 <= cell[k - prev.len()] < (stacks + 1) * (sectors + 1));
            }
        }
    }
}

proof fn lemma_bands(sectors: int, stacks: int, m: int)
    requires
        0 <= m <= stacks,
        0 <= sectors,
    ensures
        sphere_bands(sectors, stacks, m).len() == sectors * (6 * m - (if m >= 1 { 3int } else { 0int })
            - (if m >= stacks && stacks >= 1 { 3int } else { 0int })),
        all_below(sphere_bands(sectors, stacks, m), (stacks + 1) * (sectors + 1)),
    decreases m,
{
    if m > 0 {
        lemma_bands(sectors, stacks, m - 1);
        lemma_band(sectors, stacks, m - 1, sectors);
        let prev = sphere_bands(sectors, stacks, m - 1);
        let band = sphere_band(sectors, stacks, m - 1, sectors);
        let c = corners_per_quad(stacks, m - 1);
        let a = 6 * (m - 1) - (if m - 1 >= 1 { 3int } else { 0int }) - (if m - 1 >= stacks && stacks >= 1 { 3int } else { 0int });
        let b = 6 * m - (if m >= 1 { 3int } else { 0int }) - (if m >= stacks && stacks >= 1 { 3int } else { 0int });
        assert(a + c == b);
        assert(sectors * a + sectors * c == sectors * b) by (nonlinear_arith)
            requires a + c == b;
        assert(sectors * c == c * sectors) by (nonlinear_arith);
        assert(sphere_bands(sectors, stacks, m) == prev + band);
        assert(band.len() == sectors * c);
        assert(prev.len() == sectors * a);
        assert forall|k: int| 0 <= k < (prev + band).len() implies
            0 <= #[trigger] (prev + band)[k] < (stacks + 1) * (sectors + 1) by {
            if k >= prev.len() {
                assert(0 <= band[k - prev.len()] < (stacks + 1) * (sectors + 1));
            }
        }
    } else {
        let z = 6 * m - (if m >= 1 { 3int } else { 0int }) - (if m >= stacks && stacks >= 1 { 3int } else { 0int });
        assert(z == 0);
        assert(sectors * z == 0) by (nonlinear_arith)
            requires z == 0;
    }
}

/// A sphere with `sectors` longitudes and `stacks >= 1` latitude bands has
/// `6 * sectors * (stacks - 1)` triangle corners, and every corner names one
/// of its `(stacks + 1) * (sectors + 1)` vertices.
pub proof fn law_sphere_mesh_is_closed(sectors: int, stacks: int)
    requires
        sectors >= 0,
        stacks >= 1,
    ensures
        sphere_bands(sectors, stacks, stacks).len() == 6 * sectors * (stacks - 1),
        all_below(sphere_bands(sectors, stacks, stacks), (stacks + 1) * (sectors + 1)),
{
    lemma_bands(sectors, stacks, stacks);
    assert(sectors * (6 * stacks - 3 - 3) == 6 * sectors * (stacks - 1)) by (nonlinear_arith);
}

proof fn lemma_band_cell(sectors: int, stacks: int, i: int, m: int, j: int)
    requires
        0 <= i < stacks,
        0 <= j < m <= sectors,
    ensures
        sphere_band(sectors, stacks, i, m).subrange(
            corners_per_quad(stacks, i) * j,
            corners_per_quad(stacks, i) * j + corners_per_quad(stacks, i),
        ) == sphere_cell(sectors, stacks, i, j),
    decreases m,
{
    let c = corners_per_quad(stacks, i);
    lemma_band(sectors, stacks, i, m - 1);
    let prev = sphere_band(sectors, stacks, i, m - 1);
    let band = sphere_band(sectors, stacks, i, m);
    assert(band == prev + sphere_cell(sectors, stacks, i, m - 1));
    assert(prev.len() == (m - 1) * c);
    if j == m - 1 {
        assert(c * j == (m - 1) * c) by (nonlinear_arith)
            requires j == m - 1;
        assert(band.subrange(c * j, c * j + c) =~= sphere_cell(sectors, stacks, i, j));
    } else {
        lemma_band_cell(sectors, stacks, i, m - 1, j);
        assert(c * j + c <= (m - 1) * c) by (nonlinear_arith)
            requires j + 1 <= m - 1, c >= 0;
        assert(0 <= c * j) by (nonlinear_arith)
            requires j >= 0, c >= 0;
        assert(band.subrange(c * j, c * j + c) =~= prev.subrange(c * j, c * j + c));
    }
}

proof fn lemma_bands_band(sectors: int, stacks: int, m: int, i: int)
    requires
        0 <= i < m <= stacks,
        0 <= sectors,
    ensures
        sphere_bands(sectors, stacks, i).len() + sphere_band(sectors, stacks, i, sectors).len()
            <= sphere_bands(sectors, stacks, m).len(),
        sphere_bands(sectors, stacks, m).subrange(
            sphere_bands(sectors, stacks, i).len() as int,
            (sphere_bands(sectors, stacks, i).len() + sphere_band(sectors, stacks, i, sectors).len()) as int,
        ) == sphere_band(sectors, stacks, i, sectors),
    decreases m,
{
    let prev = sphere_bands(sectors, stacks, m - 1);
    let all = sphere_bands(sectors, stacks, m);
    assert(all == prev + sphere_band(sectors, stacks, m - 1, sectors));
    let lo = sphere_bands(sectors, stacks, i).len() as int;
    let hi = (lo + sphere_band(sectors, stacks, i, sectors).len()) as int;
    if i == m - 1 {
        assert(all.subrange(lo, hi) =~= sphere_band(sectors, stacks, i, sectors));
    } else {
        lemma_bands_band(sectors, stacks, m - 1, i);
        assert(all.subrange(lo, hi) =~= prev.subrange(lo, hi));
    }
}

/// Whether `t` is the triangle with corners `a`, `b` and `c`, listed in that
/// turning sense (starting from any of them).
pub open spec fn turns_as(t: Seq<int>, a: int, b: int, c: int) -> bool {
    t == seq![a, b, c] || t == seq![b, c, a] || t == seq![c, a, b]
}

/// Every quad of the UV sphere is covered by its triangles without overlap,
/// all turning the same way: the quad between rows `i`, `i + 1` and
/// longitudes `j`, `j + 1` has its triangles at a fixed place of the index
/// list; each of them spans the diagonal from the upper right corner to the
/// lower left one; the upper triangle (every band but the top one) adds the
/// upper left corner, and the lower triangle (every band but the bottom one)
/// adds the lower right one. So in every middle band the two triangles of a
/// quad meet along the diagonal and together cover all four corners; from the
/// upper right corner, the upper triangle turns to the upper left then the
/// lower left corner, the lower triangle to the lower left then the lower
/// right corner.
pub proof fn law_sphere_quads_are_covered(sectors: int, stacks: int, i: int, j: int)
    requires
        0 <= i < stacks,
        0 <= j < sectors,
    ensures
        ({
            let r = sphere_bands(sectors, stacks, stacks);
            let k1 = i * (sectors + 1);
            let k2 = k1 + sectors + 1;
            let upper = if i != 0 { 3int } else { 0int };
            let lower = if i != stacks - 1 { 3int } else { 0int };
            let at = sectors * (6 * i - upper) + (upper + lower) * j;
            &&& 0 <= at
            &&& at + upper + lower <= r.len()
            &&& i != 0 ==> turns_as(r.subrange(at, at + 3), k1 + j + 1, k1 + j, k2 + j)
            &&& i != stacks - 1 ==> turns_as(r.subrange(at + upper, at + upper + 3), k1 + j + 1, k2 + j, k2 + j + 1)
        }),
{
    let r = sphere_bands(sectors, stacks, stacks);
    let k1 = i * (sectors + 1);
    let k2 = k1 + sectors + 1;
    let upper = if i != 0 { 3int } else { 0int };
    let lower = if i != stacks - 1 { 3int } else { 0int };
    let c = corners_per_quad(stacks, i);
    assert(c == upper + lower);
    let at = sectors * (6 * i - upper) + (upper + lower) * j;
    lemma_bands(sectors, stacks, i);
    lemma_band(sectors, stacks, i, sectors);
    lemma_bands_band(sectors, stacks, stacks, i);
    lemma_band_cell(sectors, stacks, i, sectors, j);
    let lo = sphere_bands(sectors, stacks, i).len() as int;
    assert(lo == sectors * (6 * i - upper));
    let band = sphere_band(sectors, stacks, i, sectors);
    assert(band.len() == sectors * c);
    assert(0 <= c * j && c * j + c <= sectors * c) by (nonlinear_arith)
        requires 0 <= j < sectors, c >= 0;
    assert(c * j == (upper + lower) * j);
    assert(0 <= lo) by (nonlinear_arith)
        requires lo == sectors * (6 * i - upper), sectors >= 0, 6 * i - upper >= 0;
    let cell = sphere_cell(sectors, stacks, i, j);
    assert(r.subrange(at, at + c) =~= cell) by {
        assert(r.subrange(lo, lo + band.len()) == band);
        assert(band.subrange(c * j, c * j + c) == cell);
        assert forall|t: int| 0 <= t < c implies r.subrange(at, at + c)[t] == cell[t] by {
            assert(r.subrange(at, at + c)[t] == r[lo + c * j + t]);
            assert(r[lo + c * j + t] == r.subrange(lo, lo + band.len())[c * j + t]);
            assert(band[c * j + t] == band.subrange(c * j, c * j + c)[t]);
        }
    }
    if i != 0 {
        let t = r.subrange(at, at + 3);
        assert(t =~= cell.subrange(0, 3)) by {
            assert forall|x: int| 0 <= x < 3 implies t[x] == cell.subrange(0, 3)[x] by {
                assert(t[x] == r.subrange(at, at + c)[x]);
            }
        }
        assert(t[0] == k1 + j && t[1] == k2 + j && t[2] == k1 + j + 1);
        assert(t =~= seq![k1 + j, k2 + j, k1 + j + 1]);
    }
    if i != stacks - 1 {
        let t = r.subrange(at + upper, at + upper + 3);
        assert(t =~= cell.subrange(upper, upper + 3)) by {
            assert forall|x: int| 0 <= x < 3 implies t[x] == cell.subrange(upper, upper + 3)[x] by {
                assert(t[x] == r.subrange(at, at + c)[upper + x]);
            }
        }
        assert(t[0] == k1 + j + 1 && t[1] == k2 + j && t[2] == k2 + j + 1);
        assert(t =~= seq![k1 + j + 1, k2 + j, k2 + j + 1]);
    }
}

proof fn lemma_ring_segment(m: int, q: int)
    requires
        0 <= q < m,
    ensures
        6 * m == ring_triangles(m).len(),
        ring_triangles(m).subrange(6 * q, 6 * q + 6)
            == seq![2 * q, 2 * q + 1, 2 * q + 2, 2 * q + 2, 2 * q + 1, 2 * q + 3],
    decreases m,
{
    let prev = ring_triangles(m - 1);
    let last = seq![2 * (m - 1), 2 * (m - 1) + 1, 2 * (m - 1) + 2, 2 * (m - 1) + 2, 2 * (m - 1) + 1, 2 * (m - 1) + 3];
    assert(ring_triangles(m) == prev + last);
    if q == m - 1 {
        if m - 1 > 0 {
            lemma_ring_segment(m - 1, 0);
        } else {
            assert(prev =~= Seq::<int>::empty());
        }
        assert(ring_triangles(m).subrange(6 * q, 6 * q + 6) =~= last);
    } else {
        lemma_ring_segment(m - 1, q);
        assert(ring_triangles(m).subrange(6 * q, 6 * q + 6) =~= prev.subrange(6 * q, 6 * q + 6));
    }
}

/// Every segment of the flat ring is covered by its two triangles without
/// overlap, both turning the same way: segment `q` lies between the inner and
/// outer vertices `2q`, `2q + 1` and the next pair `2q + 2`, `2q + 3`; its two
/// triangles come at `6q` and `6q + 3`, both span the diagonal from its outer
/// vertex `2q + 1` to the next inner one `2q + 2`, the first adds the inner
/// vertex `2q`, the second the next outer one `2q + 3`.
pub proof fn law_ring_segments_are_covered(m: int, q: int)
    requires
        0 <= q < m,
    ensures
        6 * q + 6 <= ring_triangles(m).len(),
        turns_as(ring_triangles(m).subrange(6 * q, 6 * q + 3), 2 * q + 1, 2 * q + 2, 2 * q),
        turns_as(ring_triangles(m).subrange(6 * q + 3, 6 * q + 6), 2 * q + 1, 2 * q + 3, 2 * q + 2),
{
    lemma_ring_segment(m, q);
    let r = ring_triangles(m);
    let seg = r.subrange(6 * q, 6 * q + 6);
    assert(r.subrange(6 * q, 6 * q + 3) =~= seq![2 * q, 2 * q + 1, 2 * q + 2]) by {
        assert forall|x: int| 0 <= x < 3 implies r.subrange(6 * q, 6 * q + 3)[x] == seg[x] by {}
    }
    assert(r.subrange(6 * q + 3, 6 * q + 6) =~= seq![2 * q + 2, 2 * q + 1, 2 * q + 3]) by {
        assert forall|x: int| 0 <= x < 3 implies #[trigger] r.subrange(6 * q + 3, 6 * q + 6)[x] == seg[3 + x] by {}
    }
}

/// A ring with `m` segments has `6 * m` triangle corners, and every corner
/// names one of its `2 * m + 2` vertices.
pub proof fn law_ring_mesh_is_closed(m: int)
    requires
        m >= 0,
    ensures
        ring_triangles(m).len() == 6 * m,
        all_below(ring_triangles(m), 2 * m + 2),
    decreases m,
{
    if m > 0 {
        law_ring_mesh_is_closed(m - 1);
        let prev = ring_triangles(m - 1);
        let q = m - 1;
        let tail = seq![2 * q, 2 * q + 1, 2 * q + 2, 2 * q + 2, 2 * q + 1, 2 * q + 3];
        assert forall|k: int| 0 <= k < (prev + tail).len() implies 0 <= #[trigger] (prev + tail)[k] < 2 * m + 2 by {
            if k < prev.len() {
                assert(0 <= prev[k] < 2 * (m - 1) + 2);
            }
        }
    }
}

/// The number of `true` entries of `s`.
pub open spec fn count_true(s: Seq<bool>) -> int
    decreases s.len(),
{
    if s.len() == 0 {
        0
    } else {
        count_true(s.drop_last()) + if s.last() { 1int } else { 0int }
    }
}

/// A prediction of `steps` integration steps that records positions every
/// `interval` steps records `steps / interval + 1` positions per trail (the
/// starting one included).
pub proof fn law_trail_sample_count(steps: int, interval: int)
    requires
        steps >= 0,
        interval > 0,
    ensures
        count_true(Seq::new((steps + 1) as nat, |s: int| records_at(s, interval))) == steps / interval + 1,
    decreases steps,
{
    let flags = Seq::new((steps + 1) as nat, |s: int| records_at(s, interval));
    assert(count_true(flags) == count_true(flags.drop_last()) + if flags.last() { 1int } else { 0int });
    assert(flags.last() == records_at(steps, interval));
    if steps == 0 {
        assert(flags.drop_last() =~= Seq::<bool>::empty());
        assert(0int / interval == 0) by {
            lemma_fundamental_div_mod_converse(0, interval, 0, 0);
        }
    } else {
        law_trail_sample_count(steps - 1, interval);
        assert(flags.drop_last() =~= Seq::new(steps as nat, |s: int| records_at(s, interval)));
        let q = (steps - 1) / interval;
        let r = (steps - 1) % interval;
        lemma_fundamental_div_mod(steps - 1, interval);
        assert(0 <= r < interval);
        if r + 1 == interval {
            assert(steps == (q + 1) * interval + 0) by (nonlinear_arith)
                requires steps - 1 == interval * q + r, r + 1 == interval;
            lemma_fundamental_div_mod_converse(steps, interval, q + 1, 0);
            assert(flags.last());
        } else {
            assert(steps == q * interval + (r + 1)) by (nonlinear_arith)
                requires steps - 1 == interval * q + r;
            lemma_fundamental_div_mod_converse(steps, interval, q, r + 1);
            assert(!flags.last());
        }
    }
}

proof fn lemma_kept_len_count<T>(s: Seq<T>, m: Seq<bool>)
    requires
        m.len() == s.len(),
    ensures
        kept(s, m).len() == s.len() - count_true(m),
    decreases s.len(),
{
    if s.len() > 0 {
        lemma_kept_len_count(s.drop_last(), m.drop_last());
        lemma_kept_prefix_marks(s.drop_last(), m, m.drop_last());
    }
}

proof fn lemma_kept_prefix_marks<T>(s: Seq<T>, m1: Seq<bool>, m2: Seq<bool>)
    requires
        s.len() <= m1.len(),
        s.len() <= m2.len(),
        forall|p: int| 0 <= p < s.len() ==> m1[p] == m2[p],
    ensures
        kept(s, m1) == kept(s, m2),
    decreases s.len(),
{
    if s.len() > 0 {
        lemma_kept_prefix_marks(s.drop_last(), m1, m2);
    }
}

proof fn lemma_count_update(m: Seq<bool>, x: int)
    requires
        0 <= x < m.len(),
        !m[x],
    ensures
        count_true(m.update(x, true)) == count_true(m) + 1,
    decreases m.len(),
{
    let u = m.update(x, true);
    if x == m.len() - 1 {
        assert(u.drop_last() =~= m.drop_last());
    } else {
        lemma_count_update(m.drop_last(), x);
        assert(u.drop_last() =~= m.drop_last().update(x, true));
    }
}

/// The marks of the positions `0..n` that appear in the first `k` pairs.
pub open spec fn pair_marks(n: int, pairs: Seq<(usize, usize)>, k: int) -> Seq<bool> {
    Seq::new(n as nat, |x: int| in_pairs(pairs, k, x))
}

proof fn lemma_pair_marks_count(touch: Seq<Vec<bool>>, n: int, pairs: Seq<(usize, usize)>, k: int)
    requires
        n == touch.len(),
        greedy_matching(touch, n, pairs),
        0 <= k <= pairs.len(),
    ensures
        count_true(pair_marks(n, pairs, k)) == 2 * k,
    decreases k,
{
    if k == 0 {
        lemma_count_zero(n);
        assert(pair_marks(n, pairs, 0) =~= Seq::new(n as nat, |x: int| false));
    } else {
        lemma_pair_marks_count(touch, n, pairs, k - 1);
        let (a, b) = pairs[k - 1];
        let m = pair_marks(n, pairs, k - 1);
        assert(0 <= a < b < n);
        assert(!m[a as int]) by {
            if in_pairs(pairs, k - 1, a as int) {
                let w = choose|w: int| 0 <= w < k - 1 && (pairs[w].0 == a || pairs[w].1 == a);
                assert(pairs[w].0 < pairs[k - 1].0);
            }
        }
        assert(!m[b as int]) by {
            if in_pairs(pairs, k - 1, b as int) {
                let w = choose|w: int| 0 <= w < k - 1 && (pairs[w].0 == b || pairs[w].1 == b);
                assert(pairs[w].0 != pairs[k - 1].1);
            }
        }
        lemma_count_update(m, a as int);
        lemma_count_update(m.update(a as int, true), b as int);
        assert(m.update(a as int, true).update(b as int, true) =~= pair_marks(n, pairs, k)) by {
            assert forall|x: int| 0 <= x < n implies
                m.update(a as int, true).update(b as int, true)[x] == pair_marks(n, pairs, k)[x] by {
                if in_pairs(pairs, k, x) {
                    let w = choose|w: int| 0 <= w < k && (pairs[w].0 == x || pairs[w].1 == x);
                    if w < k - 1 {
                        assert(in_pairs(pairs, k - 1, x));
                    }
                }
                if m[x] {
                    let w = choose|w: int| 0 <= w < k - 1 && (pairs[w].0 == x || pairs[w].1 == x);
                    assert(in_pairs(pairs, k, x));
                }
                if x == a as int || x == b as int {
                    assert(in_pairs(pairs, k, x));
                }
            }
        }
    }
}

proof fn lemma_count_zero(n: int)
    requires
        n >= 0,
    ensures
        count_true(Seq::new(n as nat, |x: int| false)) == 0,
    decreases n,
{
    if n > 0 {
        lemma_count_zero(n - 1);
        assert(Seq::new(n as nat, |x: int| false).drop_last() =~= Seq::new((n - 1) as nat, |x: int| false));
    }
}

/// Every collision of the scan removes exactly two bodies: after the bodies
/// in the colliding pairs leave, `n - 2 * pairs.len()` bodies remain.
pub proof fn law_each_collision_removes_two<T>(bodies: Seq<T>, touch: Seq<Vec<bool>>, pairs: Seq<(usize, usize)>)
    requires
        touch.len() == bodies.len(),
        greedy_matching(touch, touch.len() as int, pairs),
    ensures
        kept(bodies, Seq::new(bodies.len(), |x: int| in_any_pair(pairs, x))).len() == bodies.len() - 2 * pairs.len(),
{
    let n = bodies.len() as int;
    lemma_pair_marks_count(touch, n, pairs, pairs.len() as int);
    assert(Seq::new(bodies.len(), |x: int| in_any_pair(pairs, x)) =~= pair_marks(n, pairs, pairs.len() as int));
    lemma_kept_len_count(bodies, pair_marks(n, pairs, pairs.len() as int));
}

proof fn lemma_merged_len<C, D>(o: Seq<CollisionOutcome<C, D>>)
    ensures
        merged_of(o).len() <= o.len(),
    decreases o.len(),
{
    if o.len() > 0 {
        lemma_merged_len(o.drop_last());
    }
}

/// Collisions never add bodies: each colliding pair of the scan takes two
/// bodies out and gives back at most one, so at least one body fewer remains
/// per collision.
pub proof fn law_collisions_never_add_bodies<C, D>(
    bodies: Seq<C>,
    touch: Seq<Vec<bool>>,
    pairs: Seq<(usize, usize)>,
    outcomes: Seq<CollisionOutcome<C, D>>,
)
    requires
        touch.len() == bodies.len(),
        greedy_matching(touch, touch.len() as int, pairs),
        outcomes.len() == pairs.len(),
    ensures
        after_collisions(bodies, pairs, outcomes).len() <= bodies.len() - pairs.len(),
{
    law_each_collision_removes_two(bodies, touch, pairs);
    lemma_merged_len(outcomes);
}

/// A finger that has left the screen is no longer tracked: after `end(id)`
/// no remaining finger carries `id`.
pub proof fn law_ended_finger_is_gone<P>(active: Seq<(u64, P)>, id: u64)
    ensures
        forall|k: int| 0 <= k < without_id(active, id).len() ==> (#[trigger] without_id(active, id)[k]).0 != id,
{
    broadcast use vstd::seq_lib::group_filter_ensures;
}

/// Of two scan outcomes that agree before position `k`, the second one also
/// has a pair at `k`, starting no later than the first one's.
proof fn lemma_first_not_later(
    touch: Seq<Vec<bool>>,
    n: int,
    p: Seq<(usize, usize)>,
    q: Seq<(usize, usize)>,
    k: int,
)
    requires
        n == touch.len(),
        greedy_matching(touch, n, p),
        greedy_matching(touch, n, q),
        0 <= k < p.len(),
        k <= q.len(),
        forall|l: int| 0 <= l < k ==> p[l] == q[l],
    ensures
        k < q.len() && q[k].0 <= p[k].0,
{
    if !(k < q.len() && q[k].0 <= p[k].0) {
        lemma_first_not_later_contradiction(touch, n, p, q, k);
    }
}

proof fn lemma_first_not_later_contradiction(
    touch: Seq<Vec<bool>>,
    n: int,
    p: Seq<(usize, usize)>,
    q: Seq<(usize, usize)>,
    k: int,
)
    requires
        n == touch.len(),
        greedy_matching(touch, n, p),
        greedy_matching(touch, n, q),
        0 <= k < p.len(),
        k <= q.len(),
        forall|l: int| 0 <= l < k ==> p[l] == q[l],
        k < q.len() ==> p[k].0 < q[k].0,
    ensures
        k < q.len() && q[k].0 <= p[k].0,
{
    let a = p[k].0 as int;
    let b = p[k].1 as int;
    assert(flagged_pair(touch, a, b));
    assert(!in_pairs(q, q.len() as int, a)) by {
        if in_pairs(q, q.len() as int, a) {
            let w = choose|w: int| 0 <= w < q.len() && (q[w].0 == a || q[w].1 == a);
            if w < k {
                assert(p[w] == q[w]);
                assert(p[w].0 < p[k].0);
            } else {
                assert(flagged_pair(touch, q[w].0 as int, q[w].1 as int));
                if w > k {
                    assert(q[k].0 < q[w].0);
                }
            }
        }
    }
    assert(touch[a]@[b]);
    let w = choose|w: int| 0 <= w < q.len() && q[w].0 < a && (q[w].0 == b || q[w].1 == b);
    if w >= k {
        if w > k {
            assert(q[k].0 < q[w].0);
        }
    } else {
        assert(p[w] == q[w]);
        assert(flagged_pair(touch, p[w].0 as int, p[w].1 as int));
    }
}

proof fn lemma_same_prefix(
    touch: Seq<Vec<bool>>,
    n: int,
    p: Seq<(usize, usize)>,
    q: Seq<(usize, usize)>,
    k: int,
)
    requires
        n == touch.len(),
        greedy_matching(touch, n, p),
        greedy_matching(touch, n, q),
        0 <= k <= p.len(),
        k <= q.len(),
    ensures
        forall|l: int| 0 <= l < k ==> p[l] == q[l],
    decreases k,
{
    if k > 0 {
        let j = k - 1;
        lemma_same_prefix(touch, n, p, q, j);
        if p[j].0 < q[j].0 {
            lemma_first_not_later(touch, n, p, q, j);
        } else if q[j].0 < p[j].0 {
            lemma_first_not_later(touch, n, q, p, j);
        } else {
            let a = p[j].0 as int;
            let b = p[j].1 as int;
            let d = q[j].1 as int;
            assert(flagged_pair(touch, a, b));
            assert(flagged_pair(touch, q[j].0 as int, d));
            if b < d {
                assert(touch[q[j].0 as int]@[b]);
                assert(in_pairs(q, j, b));
                let w = choose|w: int| 0 <= w < j && (q[w].0 == b || q[w].1 == b);
                assert(p[w] == q[w]);
            } else if d < b {
                assert(touch[p[j].0 as int]@[d]);
                assert(in_pairs(p, j, d));
                let w = choose|w: int| 0 <= w < j && (p[w].0 == d || p[w].1 == d);
                assert(p[w] == q[w]);
            }
            assert(p[j] == q[j]);
        }
    }
}

/// The collision scan has one outcome: two pair lists that both satisfy the
/// description of the scan over the same contact table are equal.
pub proof fn law_collision_scan_is_determined(
    touch: Seq<Vec<bool>>,
    p: Seq<(usize, usize)>,
    q: Seq<(usize, usize)>,
)
    requires
        greedy_matching(touch, touch.len() as int, p),
        greedy_matching(touch, touch.len() as int, q),
    ensures
        p == q,
{
    let n = touch.len() as int;
    if p.len() <= q.len() {
        lemma_same_prefix(touch, n, p, q, p.len() as int);
        if p.len() < q.len() {
            lemma_first_not_later(touch, n, q, p, p.len() as int);
        }
    } else {
        lemma_same_prefix(touch, n, p, q, q.len() as int);
        lemma_first_not_later(touch, n, p, q, q.len() as int);
    }
    assert(p =~= q);
}

/// Every object draw of a frame uses a uniform block that was written: the
/// `q`-th draw reads block `q` (byte offset `q * 256`), which lies inside the
/// buffer of `MAX_OBJECTS` blocks and holds that same object.
pub proof fn law_draws_use_written_blocks(objs: Seq<(DrawSource, u32)>, show_background: bool, q: int)
    requires
        objs.len() * 256 <= u32::MAX,
        0 <= q < planned_calls(objs).len(),
    ensures
        planned_calls(objs)[q].0 as int == q * 256,
        q < MAX_OBJECTS,
        q < planned_blocks(objs, show_background).len(),
        planned_blocks(objs, show_background)[q] == objs[q].0,
{
    assert(0 <= q * 256 <= objs.len() * 256) by (nonlinear_arith)
        requires 0 <= q < objs.len();
}

} // verus!
