use libspacecadet::documents::{layer_descriptions, matrix_cells};
use libspacecadet::input_event::{InputEvent, KeyState, SimpleKey};
use libspacecadet::matrix_collector::{key_label, write_documents, CollectorStep, MatrixCollector};
use libspacecadet::virtual_keyboard_matrix::KeyStateChange;

const KEY_1: SimpleKey = SimpleKey { code: 2 };
const KEY_2: SimpleKey = SimpleKey { code: 3 };
const KEY_3: SimpleKey = SimpleKey { code: 4 };

fn press(key: SimpleKey) -> InputEvent {
    KeyState(key, KeyStateChange::Pressed).into()
}

fn names(rows: &[&[&str]]) -> Vec<Vec<String>> {
    rows.iter().map(|row| row.iter().map(|c| c.to_string()).collect()).collect()
}

#[test]
fn one_tap_collects_two_go_on_three_finish() {
    let mut c = MatrixCollector::new();
    assert_eq!(c.feed(press(KEY_1)), CollectorStep::Collected(KEY_1));
    assert_eq!(c.feed(KeyState(KEY_1, KeyStateChange::Released).into()), CollectorStep::Ignored);
    assert_eq!(c.feed(KeyState(KEY_1, KeyStateChange::Held).into()), CollectorStep::Ignored);
    assert_eq!(c.feed(press(KEY_2)), CollectorStep::Collected(KEY_2));
    assert_eq!(c.feed(press(KEY_2)), CollectorStep::NextRow);
    assert!(!c.is_finished());
    assert_eq!(c.feed(press(KEY_3)), CollectorStep::Collected(KEY_3));
    assert_eq!(c.feed(press(KEY_3)), CollectorStep::NextRow);
    assert_eq!(c.feed(press(KEY_3)), CollectorStep::Finished);
    assert!(c.is_finished());
    assert_eq!(c.finish(), vec![vec![KEY_1, KEY_2], vec![KEY_3]]);
}

#[test]
fn event_that_is_no_key_event_is_passed_over() {
    let mut c = MatrixCollector::new();
    let mut e = press(KEY_1);
    e.event_type = 4;
    assert_eq!(c.feed(e), CollectorStep::Ignored);
    assert_eq!(c.finish(), Vec::<Vec<SimpleKey>>::new());
}

#[test]
fn key_tapped_again_after_another_is_collected_again() {
    let mut c = MatrixCollector::new();
    assert_eq!(c.feed(press(KEY_1)), CollectorStep::Collected(KEY_1));
    assert_eq!(c.feed(press(KEY_2)), CollectorStep::Collected(KEY_2));
    assert_eq!(c.feed(press(KEY_1)), CollectorStep::Collected(KEY_1));
    assert_eq!(c.finish(), Vec::<Vec<SimpleKey>>::new());
}

#[test]
fn labels_of_keys() {
    assert_eq!(key_label("KEY_A"), "\"KC_A\"");
    assert_eq!(key_label("BTN_LEFT"), "\"BTN_LEFT\"");
    assert_eq!(key_label("KEY_KEY"), "\"KC_KEY\"");
    assert_eq!(key_label("MONKEY"), "\"MONKC\"");
    assert_eq!(key_label("KE"), "\"KE\"");
    assert_eq!(key_label(""), "\"\"");
}

#[test]
fn documents_of_a_jagged_matrix() {
    let (matrix, layers) =
        write_documents("/dev/input/event4", &names(&[&["KEY_ESC", "KEY_1"], &["KEY_TAB"]]));
    assert_eq!(
        matrix,
        "{\n  \"device\": \"/dev/input/event4\",\n  \"matrix\": [\n    [ \"KC_ESC\", \"KC_1\" ],\n    [ \"KC_TAB\", \"____\" ]\n  ]\n}"
    );
    assert_eq!(
        layers,
        "{\n  \"layer_order\": [ \"base\" ],\n  \"base\": {\n    \"enabled\": true,\n    \"keys\" : [\n    [ \"KC_ESC\", \"KC_1\" ],\n    [ \"KC_TAB\", \"____\" ]\n    ]\n  }\n}"
    );
    // What was written can be read.
    assert_eq!(matrix_cells(&matrix).unwrap(), vec![vec!["KC_ESC", "KC_1"], vec!["KC_TAB", "____"]]);
    let read = layer_descriptions(&layers).unwrap();
    assert_eq!(read.len(), 1);
    assert_eq!(read[0].name, "base");
    assert!(read[0].enabled);
    assert_eq!(read[0].keys, vec![vec!["KC_ESC", "KC_1"], vec!["KC_TAB", "____"]]);
}

#[test]
fn labels_are_padded_to_the_width_of_their_column() {
    let (matrix, _) =
        write_documents("kbd", &names(&[&["KEY_A", "KEY_LEFTSHIFT"], &["KEY_CAPSLOCK", "KEY_B"]]));
    assert_eq!(
        matrix,
        "{\n  \"device\": \"kbd\",\n  \"matrix\": [\n    [        \"KC_A\", \"KC_LEFTSHIFT\" ],\n    [ \"KC_CAPSLOCK\",         \"KC_B\" ]\n  ]\n}"
    );
}

#[test]
fn documents_of_one_key() {
    let (matrix, _) = write_documents("kbd", &names(&[&["KEY_A"]]));
    assert_eq!(matrix, "{\n  \"device\": \"kbd\",\n  \"matrix\": [\n    [ \"KC_A\" ]\n  ]\n}");
}
