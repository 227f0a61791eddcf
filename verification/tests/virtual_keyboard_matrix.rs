use libspacecadet::input_event::{InputEvent, KeyState, SimpleKey};
use libspacecadet::time::{Duration, Instant};
use libspacecadet::virtual_keyboard_matrix::{
    BlockedKeyStates, KeyStateChange, KeyStats, MatrixUpdateResult, StateMatrix,
    VirtualKeyboardMatrix,
};

const KEY_1: SimpleKey = SimpleKey { code: 2 };
const KEY_2: SimpleKey = SimpleKey { code: 3 };
const KEY_3: SimpleKey = SimpleKey { code: 4 };
const KEY_4: SimpleKey = SimpleKey { code: 5 };
const KEY_5: SimpleKey = SimpleKey { code: 6 };
const KEY_9: SimpleKey = SimpleKey { code: 10 };

fn now() -> Instant {
    Instant::from_nanos(3_600_000_000_000)
}

fn later(t: Instant, span: Duration) -> Instant {
    t.checked_add(span).unwrap()
}

#[test]
fn state_matrix_set() {
    let mut m = StateMatrix::new((3, 5));

    // Check the rules that govern whether or not a set yields something.
    assert!(m.set((0, 0), false, now()).is_none());
    assert_eq!(m.set((0, 0), true, now()).unwrap(), KeyStateChange::Pressed);
    assert!(m.set((0, 0), true, now()).is_none());
    assert_eq!(m.set((0, 0), false, now()).unwrap(), KeyStateChange::Released);
}

#[test]
fn state_matrix_check_held_keys() {
    let mut m = StateMatrix::new((3, 5));
    let reference = now();
    let half_hold = Duration::from_millis(100);
    let hold = Duration::from_millis(200);
    let hold2 = Duration::from_millis(200 * 2);

    // A key that was pressed + released shouldn't register as a hold.
    m.set((0, 0), true, reference);
    m.set((0, 0), false, later(reference, hold));
    assert!(!m.is_held((0, 0), hold, reference));
    assert!(!m.is_held((0, 0), hold, later(reference, half_hold)));
    assert!(!m.is_held((0, 0), hold, later(reference, hold2)));

    // A key that's pressed and held should register as a hold.
    let pt = (1, 1);
    m.set(pt, true, reference);
    assert!(!m.is_held(pt, hold, later(reference, half_hold)));
    assert!(m.is_held(pt, hold, later(reference, hold)));
    assert!(m.is_held(pt, hold, later(reference, hold2)));

    // Release the key, and check that it no longer registers as a hold.
    m.set(pt, false, later(reference, hold2));
    assert!(!m.is_held(pt, hold, later(later(reference, hold2), half_hold)));
}

#[test]
fn state_matrix_reset_key_press_time() {
    let mut m = StateMatrix::new((2, 2));
    let hold = Duration::from_millis(200);
    let t = now();
    m.set((1, 0), true, t);
    assert!(m.is_held((1, 0), hold, later(t, hold)));
    m.reset_key_press_time((1, 0), later(t, hold));
    assert!(!m.is_held((1, 0), hold, later(t, hold)));
    assert!(m.is_held((1, 0), hold, later(t, Duration::from_millis(400))));
}

#[test]
fn key_state_change_conversion() {
    assert_eq!(KeyStateChange::Pressed, KeyStateChange::from_value(1));
    assert_eq!(KeyStateChange::Released, KeyStateChange::from_value(0));
    assert_eq!(KeyStateChange::Held, KeyStateChange::from_value(2));
}

#[test]
fn key_state_change_values() {
    assert_eq!(KeyStateChange::Released.as_value(), 0);
    assert_eq!(KeyStateChange::Pressed.as_value(), 1);
    assert_eq!(KeyStateChange::Held.as_value(), 2);
    assert_eq!(KeyStateChange::Released as i32, 0);
    assert_eq!(KeyStateChange::Pressed as i32, 1);
    assert_eq!(KeyStateChange::Held as i32, 2);
}

#[test]
fn key_stats_count_each_kind() {
    let mut s = KeyStats::new();
    assert_eq!(s.get(KeyStateChange::Pressed), 0);
    assert_eq!(s.get(KeyStateChange::Released), 0);
    assert_eq!(s.get(KeyStateChange::Held), 0);
    s.increment(KeyStateChange::Pressed);
    s.increment(KeyStateChange::Pressed);
    s.increment(KeyStateChange::Held);
    assert_eq!(s.get(KeyStateChange::Pressed), 2);
    assert_eq!(s.get(KeyStateChange::Released), 0);
    assert_eq!(s.get(KeyStateChange::Held), 1);
    s.set(KeyStateChange::Released, 7);
    assert_eq!(s.get(KeyStateChange::Released), 7);
    assert_eq!(s.get(KeyStateChange::Pressed), 2);
}

#[test]
fn block_key_states() {
    let mut block = BlockedKeyStates::new_block_release_and_hold();

    // Holds are blocked many times.
    assert!(block.check_if_blocked(KeyStateChange::Held));
    assert!(block.check_if_blocked(KeyStateChange::Held));

    // Presses aren't held.
    assert!(!block.check_if_blocked(KeyStateChange::Pressed));

    // Release is blocked once, then all other blocks are disabled.
    assert!(block.check_if_blocked(KeyStateChange::Released));
    assert!(!block.check_if_blocked(KeyStateChange::Released));
    assert!(!block.check_if_blocked(KeyStateChange::Held));
    assert!(!block.check_if_blocked(KeyStateChange::Pressed));
}

#[test]
fn block_consumed_by_press_clears_all_flags() {
    let mut block = BlockedKeyStates { released: true, pressed: true, held: true };
    assert!(block.check_if_blocked(KeyStateChange::Held));
    assert_eq!(block, BlockedKeyStates { released: true, pressed: true, held: true });
    assert!(block.check_if_blocked(KeyStateChange::Pressed));
    assert_eq!(block, BlockedKeyStates::new());
}

#[test]
fn unblock_clears_all_flags() {
    let mut block = BlockedKeyStates::new_block_release_and_hold();
    block.unblock();
    assert_eq!(block, BlockedKeyStates::new());
}

fn get_simple_matrix() -> VirtualKeyboardMatrix {
    VirtualKeyboardMatrix::new(
        vec![
            vec![Some(KEY_4), Some(KEY_5), None],
            vec![Some(KEY_1), Some(KEY_2), Some(KEY_3)],
        ],
        None,
    )
}

#[test]
fn virtual_keyboard_matrix_update() {
    // Create a simple matrix, then setup a few press/release events
    // that tests will use.
    let mut mat = get_simple_matrix();
    let press_9: InputEvent = KeyState(KEY_9, KeyStateChange::Pressed).into();
    let press_1: InputEvent = KeyState(KEY_1, KeyStateChange::Pressed).into();
    let release_1: InputEvent = KeyState(KEY_1, KeyStateChange::Released).into();
    let t = now();

    // Update with an event that's not part of the matrix.
    assert!(matches!(mat.update(press_9, t), MatrixUpdateResult::Bypass));

    // Send a release event, even though the key is already released.
    assert!(matches!(mat.update(release_1.clone(), t), MatrixUpdateResult::Redundant((1, 0))));

    // Press and release.
    assert!(matches!(
        mat.update(press_1.clone(), t),
        MatrixUpdateResult::StateChanged((1, 0), KeyStateChange::Pressed)
    ));
    assert!(matches!(
        mat.update(release_1.clone(), t),
        MatrixUpdateResult::StateChanged((1, 0), KeyStateChange::Released)
    ));

    // Send a press event, then turn on the block for the key.
    // This is the classic layer-switching use case.
    assert!(matches!(
        mat.update(press_1.clone(), t),
        MatrixUpdateResult::StateChanged((1, 0), KeyStateChange::Pressed)
    ));
    mat.set_block(BlockedKeyStates::new_block_release_and_hold(), (1, 0));
    assert!(matches!(mat.update(release_1, t), MatrixUpdateResult::Blocked));

    // The key shouldn't be blocked anymore.
    assert!(matches!(
        mat.update(press_1, t),
        MatrixUpdateResult::StateChanged((1, 0), KeyStateChange::Pressed)
    ));
}

#[test]
fn virtual_keyboard_matrix_held_keys() {
    // Grab a matrix and setup press + release events.
    let hold = Duration::from_millis(200);
    let mut mat = VirtualKeyboardMatrix::new(
        vec![
            vec![Some(KEY_4), Some(KEY_5), None],
            vec![Some(KEY_1), Some(KEY_2), Some(KEY_3)],
        ],
        Some(hold),
    );
    let press_1: InputEvent = KeyState(KEY_1, KeyStateChange::Pressed).into();

    let t = now();
    assert!(matches!(
        mat.update(press_1, t),
        MatrixUpdateResult::StateChanged((1, 0), KeyStateChange::Pressed)
    ));

    let pre_hold = later(t, Duration::from_millis(100));
    let post_hold = later(t, Duration::from_millis(300));

    assert_eq!(mat.detect_held_keys(pre_hold).len(), 0);
    assert_eq!(mat.detect_held_keys(post_hold)[0], (1, 0));

    // Check that blocked key holds don't register.
    mat.set_block(BlockedKeyStates::new_block_release_and_hold(), (1, 0));
    assert_eq!(mat.detect_held_keys(pre_hold).len(), 0);
    assert_eq!(mat.detect_held_keys(post_hold).len(), 0);
}

#[test]
fn matrix_dim_is_rows_by_widest_row() {
    let mat = VirtualKeyboardMatrix::new(vec![vec![Some(KEY_4)], vec![None, Some(KEY_1), None]], None);
    assert_eq!(mat.dim(), (2, 3));
    let empty = VirtualKeyboardMatrix::new(vec![], None);
    assert_eq!(empty.dim(), (0, 0));
}

#[test]
fn default_hold_duration_is_200_ms() {
    assert_eq!(VirtualKeyboardMatrix::default_hold_duration(), Duration::from_nanos(200_000_000));
    assert_eq!(Duration::from_millis(200), Duration::from_nanos(200_000_000));
    assert_eq!(Duration::from_secs(2), Duration::from_nanos(2_000_000_000));
}

#[test]
fn later_of_two_cells_with_the_same_key_counts() {
    let mut mat = VirtualKeyboardMatrix::new(vec![vec![Some(KEY_1), Some(KEY_2), Some(KEY_1)]], None);
    let press_1: InputEvent = KeyState(KEY_1, KeyStateChange::Pressed).into();
    assert!(matches!(
        mat.update(press_1, now()),
        MatrixUpdateResult::StateChanged((0, 2), KeyStateChange::Pressed)
    ));
}

#[test]
fn event_that_is_no_key_event_bypasses() {
    let mut mat = get_simple_matrix();
    let mut e: InputEvent = KeyState(KEY_1, KeyStateChange::Pressed).into();
    e.event_type = 4;
    assert!(matches!(mat.update(e, now()), MatrixUpdateResult::Bypass));
}

#[test]
fn value_other_than_zero_presses() {
    let mut mat = get_simple_matrix();
    let mut e: InputEvent = KeyState(KEY_2, KeyStateChange::Pressed).into();
    e.value = 7;
    assert!(matches!(
        mat.update(e, now()),
        MatrixUpdateResult::StateChanged((1, 1), KeyStateChange::Pressed)
    ));
    e.value = 2;
    assert!(matches!(mat.update(e, now()), MatrixUpdateResult::Redundant((1, 1))));
}

#[test]
fn hold_repeats_at_the_threshold() {
    let hold = Duration::from_millis(200);
    let mut mat = VirtualKeyboardMatrix::new(vec![vec![Some(KEY_1), Some(KEY_2)]], Some(hold));
    let t = now();
    mat.update(KeyState(KEY_2, KeyStateChange::Pressed).into(), t);
    mat.update(KeyState(KEY_1, KeyStateChange::Pressed).into(), t);
    // Exactly at the threshold both keys are held, in reading order.
    assert_eq!(mat.detect_held_keys(later(t, hold)), vec![(0, 0), (0, 1)]);
    // The clock of each was set back: nothing is held 100 ms later.
    assert_eq!(mat.detect_held_keys(later(t, Duration::from_millis(300))).len(), 0);
    assert_eq!(mat.detect_held_keys(later(t, Duration::from_millis(400))), vec![(0, 0), (0, 1)]);
}

#[test]
fn pressed_iff_more_presses_than_releases() {
    // One cell, a run of events with redundant ones among them.
    let mut mat = VirtualKeyboardMatrix::new(vec![vec![Some(KEY_1)]], None);
    let values = [1, 1, 0, 0, 1, 0, 1, 1, 1];
    let mut presses = 0;
    let mut releases = 0;
    let mut pressed = false;
    for v in values.iter() {
        let mut e: InputEvent = KeyState(KEY_1, KeyStateChange::Pressed).into();
        e.value = *v;
        match mat.update(e, now()) {
            MatrixUpdateResult::StateChanged((0, 0), KeyStateChange::Pressed) => {
                presses += 1;
                pressed = true;
            }
            MatrixUpdateResult::StateChanged((0, 0), KeyStateChange::Released) => {
                releases += 1;
                pressed = false;
            }
            MatrixUpdateResult::Redundant((0, 0)) => {}
            _ => panic!(),
        }
        assert_eq!(pressed, presses > releases);
    }
    assert_eq!(presses, 3);
    assert_eq!(releases, 2);
}

#[test]
fn instant_arithmetic() {
    let t = Instant::from_nanos(5);
    assert_eq!(t.checked_add(Duration::from_nanos(7)), Some(Instant::from_nanos(12)));
    assert_eq!(Instant::from_nanos(u128::MAX).checked_add(Duration::from_nanos(1)), None);
    assert_eq!(Instant::from_nanos(12).duration_since(t), Duration::from_nanos(7));
    assert_eq!(t.duration_since(Instant::from_nanos(12)), Duration::from_nanos(0));
    assert!(Instant::from_nanos(12).has_reached(t, Duration::from_nanos(7)));
    assert!(!Instant::from_nanos(11).has_reached(t, Duration::from_nanos(7)));
}

#[test]
fn is_pressed_tells_the_state_of_a_cell() {
    let mut mat = get_simple_matrix();
    assert!(!mat.is_pressed((1, 0)));
    mat.update(KeyState(KEY_1, KeyStateChange::Pressed).into(), now());
    assert!(mat.is_pressed((1, 0)));
    assert!(!mat.is_pressed((1, 1)));
    mat.update(KeyState(KEY_1, KeyStateChange::Released).into(), now());
    assert!(!mat.is_pressed((1, 0)));
}
