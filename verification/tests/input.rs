use blackhole_sim::input::{key_command, Axis, Command, Key, Touches};

#[test]
fn escape_always_exits() {
    assert_eq!(key_command(Key::Escape, true), Command::Exit);
    assert_eq!(key_command(Key::Escape, false), Command::Exit);
}

#[test]
fn keys_taken_by_the_panel_are_ignored() {
    assert_eq!(key_command(Key::Space, true), Command::Ignore);
    assert_eq!(key_command(Key::A, true), Command::Ignore);
}

#[test]
fn camera_keys() {
    assert_eq!(key_command(Key::A, false), Command::Pan(Axis::X, false));
    assert_eq!(key_command(Key::D, false), Command::Pan(Axis::X, true));
    assert_eq!(key_command(Key::W, false), Command::Pan(Axis::Z, false));
    assert_eq!(key_command(Key::S, false), Command::Pan(Axis::Z, true));
    assert_eq!(key_command(Key::Q, false), Command::Pan(Axis::Y, true));
    assert_eq!(key_command(Key::E, false), Command::Pan(Axis::Y, false));
    assert_eq!(key_command(Key::ArrowLeft, false), Command::Yaw(false));
    assert_eq!(key_command(Key::ArrowRight, false), Command::Yaw(true));
    assert_eq!(key_command(Key::ArrowUp, false), Command::Pitch(false));
    assert_eq!(key_command(Key::ArrowDown, false), Command::Pitch(true));
    assert_eq!(key_command(Key::Space, false), Command::TogglePause);
    assert_eq!(key_command(Key::Other, false), Command::Ignore);
}

#[test]
fn pinch_starts_with_the_second_finger() {
    let mut t: Touches<(f64, f64)> = Touches::new();
    assert!(!t.start(7, (0.0, 0.0)));
    assert!(t.start(9, (3.0, 4.0)));
    assert!(!t.start(11, (1.0, 1.0)));
    assert_eq!(t.active.len(), 3);
}

#[test]
fn moving_a_finger_reports_where_it_was() {
    let mut t: Touches<(f64, f64)> = Touches::new();
    t.start(7, (0.0, 0.0));
    t.start(9, (3.0, 4.0));
    assert_eq!(t.move_to(9, (5.0, 5.0)), Some((3.0, 4.0)));
    assert_eq!(t.active, vec![(7, (0.0, 0.0)), (9, (5.0, 5.0))]);
    assert_eq!(t.move_to(42, (1.0, 1.0)), None);
    assert_eq!(t.active, vec![(7, (0.0, 0.0)), (9, (5.0, 5.0))]);
}

#[test]
fn lifting_a_finger_forgets_it() {
    let mut t: Touches<(f64, f64)> = Touches::new();
    t.start(7, (0.0, 0.0));
    t.start(9, (3.0, 4.0));
    t.start(7, (1.0, 1.0));
    assert!(t.end(7));
    assert_eq!(t.active, vec![(9, (3.0, 4.0))]);
    assert!(t.end(9));
    assert!(t.active.is_empty());
}

#[test]
fn lifting_one_of_three_fingers_keeps_the_pinch() {
    let mut t: Touches<(f64, f64)> = Touches::new();
    t.start(1, (0.0, 0.0));
    t.start(2, (0.0, 0.0));
    t.start(3, (0.0, 0.0));
    assert!(!t.end(2));
    assert_eq!(t.active.len(), 2);
}
