use blackhole_sim::draw::{mesh_for, plan_draws, DrawSource, Mesh, MAX_OBJECTS, UNIFORM_STRIDE};
use blackhole_sim::trails::{group_style, plan_trail_points, records_after_step, TrailGroup, TrailPoint, MAX_TRAIL_POINTS};

#[test]
fn frame_layout_with_everything_shown() {
    let plan = plan_draws(true, 2, true, &vec![1], 1, true, true, true);
    assert_eq!(
        plan.uniforms,
        vec![
            DrawSource::Body(0),
            DrawSource::Body(1),
            DrawSource::Wave(0),
            DrawSource::BlackHole(0),
            DrawSource::PreviewBody,
            DrawSource::PreviewBlackHole,
            DrawSource::Background,
        ]
    );
    assert_eq!(plan.calls, vec![(0, 4), (256, 4), (512, 1), (768, 0), (1024, 4), (1280, 0)]);
    assert_eq!(plan.background, Some(1536));
}

#[test]
fn hidden_bodies_hide_black_holes_too() {
    let plan = plan_draws(false, 3, false, &vec![2, 2], 2, false, true, false);
    assert_eq!(plan.uniforms, vec![DrawSource::PreviewBlackHole]);
    assert_eq!(plan.calls, vec![(0, 0)]);
    assert_eq!(plan.background, None);
}

#[test]
fn the_uniform_buffer_limits_the_frame() {
    let waves = vec![2u32; 70];
    let plan = plan_draws(true, 0, true, &waves, 0, false, false, true);
    assert_eq!(plan.uniforms.len(), MAX_OBJECTS);
    assert_eq!(plan.calls.len(), MAX_OBJECTS);
    assert_eq!(plan.calls[63], (63 * UNIFORM_STRIDE, 2));
    assert_eq!(plan.background, None);
}

#[test]
fn background_takes_the_last_free_block() {
    let waves = vec![2u32; 63];
    let plan = plan_draws(true, 0, true, &waves, 0, false, false, true);
    assert_eq!(plan.uniforms.len(), 64);
    assert_eq!(plan.uniforms[63], DrawSource::Background);
    assert_eq!(plan.background, Some(63 * 256));
}

#[test]
fn meshes_by_object_type() {
    assert_eq!(mesh_for(0), Some(Mesh::Sphere));
    assert_eq!(mesh_for(2), Some(Mesh::Sphere));
    assert_eq!(mesh_for(4), Some(Mesh::Sphere));
    assert_eq!(mesh_for(1), Some(Mesh::Ring));
    assert_eq!(mesh_for(3), None);
}

#[test]
fn samples_once_a_second() {
    let recorded: Vec<usize> = (0..=100).filter(|&s| records_after_step(s, 33)).collect();
    assert_eq!(recorded, vec![0, 33, 66, 99]);
}

#[test]
fn the_default_prediction_records_73_points() {
    // 2400 steps of 0.03 s, one sample per round(1/0.03) = 33 steps
    let recorded = (0..=2400).filter(|&s| records_after_step(s, 33)).count();
    assert_eq!(recorded, 2400 / 33 + 1);
}

#[test]
fn no_steps_still_records_the_start() {
    assert!(records_after_step(0, 0));
}

#[test]
fn trail_styles() {
    assert_eq!(group_style(TrailGroup::BlackHole), (0, 0));
    assert_eq!(group_style(TrailGroup::Body), (1, 1));
    assert_eq!(group_style(TrailGroup::PreviewBlackHole), (3, 0));
    assert_eq!(group_style(TrailGroup::PreviewBody), (2, 1));
}

#[test]
fn trail_points_in_drawing_order() {
    let pts = plan_trail_points(&vec![2], &vec![1, 0], Some(1), None);
    assert_eq!(
        pts,
        vec![
            TrailPoint { group: TrailGroup::BlackHole, trail: 0, point: 0, count: 2 },
            TrailPoint { group: TrailGroup::BlackHole, trail: 0, point: 1, count: 2 },
            TrailPoint { group: TrailGroup::Body, trail: 0, point: 0, count: 1 },
            TrailPoint { group: TrailGroup::PreviewBlackHole, trail: 0, point: 0, count: 1 },
        ]
    );
}

#[test]
fn trail_points_are_limited() {
    let pts = plan_trail_points(&vec![3000, 3000], &vec![], Some(10), Some(10));
    assert_eq!(pts.len(), MAX_TRAIL_POINTS);
    assert_eq!(pts[3999], TrailPoint { group: TrailGroup::BlackHole, trail: 1, point: 999, count: 3000 });
}
