use libspacecadet::input_event::{InputEvent, KeyState, SimpleKey};
use libspacecadet::input_keyboard::InputKeyboard;
use libspacecadet::output_keyboard::{EventBuffer, OutputKeyboard};
use libspacecadet::test_io_keyboard::{TestInputKeyboard, TestOutputKeyboard};
use libspacecadet::virtual_keyboard_matrix::KeyStateChange;

const KEY_1: SimpleKey = SimpleKey { code: 2 };
const KEY_2: SimpleKey = SimpleKey { code: 3 };
const KEY_3: SimpleKey = SimpleKey { code: 4 };

fn press(key: SimpleKey) -> InputEvent {
    KeyState(key, KeyStateChange::Pressed).into()
}

#[test]
fn event_buffer_defaults() {
    // Check the event buffer default constructor.
    let mut item = EventBuffer::new();
    let press_1 = press(KEY_1);
    assert_eq!(item.add(press_1).len(), 1);
}

#[test]
fn event_buffer_spacecadet() {
    let mut item = EventBuffer::new_spacecadet();
    let press_1 = press(KEY_1);
    // Send two keys, and return the full buffer on the second.
    assert_eq!(item.add(press_1.clone()).len(), 0);
    assert_eq!(item.add(press_1.clone()).len(), 2);
    // Buffer should be disabled.
    assert_eq!(item.add(press_1).len(), 1);
}

#[test]
fn event_buffer_releases_in_order() {
    let mut item = EventBuffer::new_spacecadet();
    assert_eq!(item.add(press(KEY_1)), vec![]);
    assert_eq!(item.add(press(KEY_2)), vec![press(KEY_1), press(KEY_2)]);
    assert_eq!(item.add(press(KEY_3)), vec![press(KEY_3)]);
}

#[test]
fn output_keyboard_counts_only_what_leaves() {
    let mut out = TestOutputKeyboard::new();
    out.set_buffer(EventBuffer::new_spacecadet());
    out.send(press(KEY_1));
    assert!(out.events.is_empty());
    assert_eq!(out.get_stats().get(KeyStateChange::Pressed), 0);
    // Past the buffer: counted at once, the buffered event stays behind.
    out.send_bypass_buffer(KeyState(KEY_3, KeyStateChange::Held).into());
    assert_eq!(out.events.len(), 1);
    assert_eq!(out.get_stats().get(KeyStateChange::Held), 1);
    out.send(KeyState(KEY_2, KeyStateChange::Released).into());
    assert_eq!(out.events.len(), 3);
    assert_eq!(out.events[1], press(KEY_1));
    assert_eq!(out.events[2].event_code, 3);
    assert_eq!(out.get_stats().get(KeyStateChange::Pressed), 1);
    assert_eq!(out.get_stats().get(KeyStateChange::Released), 1);
}

#[test]
fn replacing_the_buffer_drops_what_waits() {
    let mut out = TestOutputKeyboard::new();
    out.set_buffer(EventBuffer::new_spacecadet());
    out.send(press(KEY_1));
    out.set_buffer(EventBuffer::new());
    out.send(press(KEY_2));
    assert_eq!(out.events, vec![press(KEY_2)]);
    assert_eq!(out.get_stats().get(KeyStateChange::Pressed), 1);
}

#[test]
fn input_keyboard_hands_out_events_once() {
    let mut input = TestInputKeyboard::new();
    input.events.push(press(KEY_1));
    input.events.push(KeyState(KEY_1, KeyStateChange::Released).into());
    let read = input.read_events();
    assert_eq!(read.len(), 2);
    assert_eq!(read[0], press(KEY_1));
    assert_eq!(input.get_stats().get(KeyStateChange::Pressed), 1);
    assert_eq!(input.get_stats().get(KeyStateChange::Released), 1);
    assert!(input.read_events().is_empty());
    assert_eq!(input.get_stats().get(KeyStateChange::Pressed), 1);
}
