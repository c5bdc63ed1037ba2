use dragon_curve::controls::{Controls, Key, Nudge};

fn press_all(controls: &mut Controls, keys: &[Key]) {
    for key in keys {
        controls.press(*key);
    }
}

#[test]
fn controls_start_at_six_folds() {
    let controls = Controls::new();
    assert_eq!(controls.folds, 6);
    assert!(controls.running);
}

#[test]
fn up_up_down_from_six_gives_seven() {
    let mut controls = Controls::new();
    press_all(&mut controls, &[Key::Up, Key::Up, Key::Down]);
    assert_eq!(controls.folds, 7);
    assert!(controls.running);
}

#[test]
fn down_from_zero_stays_at_zero() {
    let mut controls = Controls { folds: 0, running: true };
    for _ in 0..5 {
        assert_eq!(controls.press(Key::Down), Nudge::Steady);
        assert_eq!(controls.folds, 0);
    }
}

#[test]
fn down_counts_to_zero_and_stops() {
    let mut controls = Controls::new();
    press_all(&mut controls, &[Key::Down; 4]);
    assert_eq!(controls.folds, 2);
    press_all(&mut controls, &[Key::Down; 4]);
    assert_eq!(controls.folds, 0);
}

#[test]
fn down_undoes_up() {
    for folds in [0usize, 1, 6, 1000] {
        let mut controls = Controls { folds, running: true };
        press_all(&mut controls, &[Key::Up, Key::Down]);
        assert_eq!(controls, Controls { folds, running: true });
    }
}

#[test]
fn up_adds_one_fold() {
    let mut controls = Controls { folds: usize::MAX - 1, running: true };
    assert_eq!(controls.press(Key::Up), Nudge::Steady);
    assert_eq!(controls.folds, usize::MAX);
}

#[test]
fn left_and_right_nudge_and_keep_the_folds() {
    let mut controls = Controls::new();
    assert_eq!(controls.press(Key::Left), Nudge::Slower);
    assert_eq!(controls.press(Key::Right), Nudge::Faster);
    assert_eq!(controls, Controls { folds: 6, running: true });
}

#[test]
fn q_stops_the_show() {
    let mut controls = Controls::new();
    assert_eq!(controls.press(Key::Q), Nudge::Steady);
    assert_eq!(controls, Controls { folds: 6, running: false });
}

#[test]
fn no_key_works_once_stopped() {
    let mut controls = Controls::new();
    controls.press(Key::Q);
    for key in [Key::Up, Key::Down, Key::Left, Key::Right, Key::Q] {
        assert_eq!(controls.press(key), Nudge::Steady);
        assert_eq!(controls, Controls { folds: 6, running: false });
    }
}
