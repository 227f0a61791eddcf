use libspacecadet::input_event::{InputEvent, KeyState, SimpleKey};
use libspacecadet::keyboard_driver::KeyboardDriver;
use libspacecadet::keys::{
    KeyCode, MomentarilyEnableLayerKey, NormalKey, OneShotLayer, OpaqueKey, ToggleLayerKey,
    WrappedKey,
};
use libspacecadet::layer::{KeyCodeMatrix, LayerAttributes, LayerCollection, ScheduledLayerEvent};
use libspacecadet::loading::LayerDescription;
use libspacecadet::symbols::KeySymbols;
use libspacecadet::test_io_keyboard::{TestInputKeyboard, TestOutputKeyboard};
use libspacecadet::time::Instant;
use libspacecadet::virtual_keyboard_matrix::{
    KeyStateChange, MatrixUpdateResult, VirtualKeyboardMatrix,
};

type TestDriver = KeyboardDriver<TestInputKeyboard, TestOutputKeyboard>;

const KEY_1: SimpleKey = SimpleKey { code: 2 };
const KEY_2: SimpleKey = SimpleKey { code: 3 };
const KEY_A: SimpleKey = SimpleKey { code: 30 };

fn symbols() -> KeySymbols {
    let mut s = KeySymbols::new();
    s.insert("KEY_1", 2);
    s.insert("KEY_2", 3);
    s.insert("KEY_A", 30);
    s.insert("KEY_B", 48);
    s.insert("KEY_LEFTSHIFT", 42);
    s
}

fn table(rows: &[&[&str]]) -> Vec<Vec<String>> {
    rows.iter().map(|row| row.iter().map(|c| c.to_string()).collect()).collect()
}

fn empty_driver() -> TestDriver {
    TestDriver {
        input: TestInputKeyboard::new(),
        output: TestOutputKeyboard::new(),
        layer_attributes: LayerCollection::new(),
        layered_codes: Vec::new(),
        matrix: VirtualKeyboardMatrix::from_cells(&table(&[&["KC_1", "KC_2"]]), &symbols()).unwrap(),
    }
}

fn layer(name: &str, enabled: bool, keys: &[&[&str]]) -> LayerDescription {
    LayerDescription { name: name.to_string(), enabled, keys: table(keys) }
}

fn now() -> Instant {
    Instant::from_nanos(1_000_000_000)
}

#[test]
fn matrix_from_cells() {
    let mut m =
        VirtualKeyboardMatrix::from_cells(&table(&[&["KC_1", "____"], &["KC_TRANS", "KC_2"]]), &symbols())
            .unwrap();
    assert_eq!(m.dim(), (2, 2));
    let press_2: InputEvent = KeyState(KEY_2, KeyStateChange::Pressed).into();
    assert!(matches!(
        m.update(press_2, now()),
        MatrixUpdateResult::StateChanged((1, 1), KeyStateChange::Pressed)
    ));
    let press_a: InputEvent = KeyState(KEY_A, KeyStateChange::Pressed).into();
    assert!(matches!(m.update(press_a, now()), MatrixUpdateResult::Bypass));
}

#[test]
fn matrix_with_a_faulty_cell_is_refused() {
    let s = symbols();
    assert_eq!(
        VirtualKeyboardMatrix::from_cells(&table(&[&["KC_1", "TG(nav)"]]), &s).err().unwrap(),
        "Couldn't convert TG(nav) into a code."
    );
    assert_eq!(
        VirtualKeyboardMatrix::from_cells(&table(&[&["KC_1"], &["KC_9"]]), &s).err().unwrap(),
        "Couldn't convert KC_9 into a code."
    );
    assert_eq!(
        VirtualKeyboardMatrix::from_cells(&table(&[&["KC_1", ""]]), &s).err().unwrap(),
        "Key description is empty."
    );
    assert_eq!(
        VirtualKeyboardMatrix::from_cells(&table(&[&["KC_1("]]), &s).err().unwrap(),
        "The \"(\" character must be followed by another token."
    );
}

#[test]
fn jagged_matrix_is_refused() {
    assert_eq!(
        VirtualKeyboardMatrix::from_cells(&table(&[&["KC_1", "KC_2"], &["KC_A"]]), &symbols())
            .err()
            .unwrap(),
        "The rows of the matrix differ in length."
    );
}

#[test]
fn layer_keys_from_cells() {
    let m = KeyCodeMatrix::from_cells(&table(&[&["KC_A", "TG(nav)"], &["____", "XXXX"]]), &symbols())
        .unwrap();
    assert_eq!(m.dim(), (2, 2));
    assert!(matches!(m.codes[0][0], KeyCode::Normal(NormalKey { value: KEY_A })));
    assert!(matches!(&m.codes[0][1], KeyCode::ToggleLayer(k) if k.layer_name == "nav"));
    assert!(matches!(m.codes[1][0], KeyCode::Transparent(_)));
    assert!(matches!(m.codes[1][1], KeyCode::Opaque(_)));
    assert_eq!(
        KeyCodeMatrix::from_cells(&table(&[&["KC_A"], &["KC_A", "KC_B"]]), &symbols()).err().unwrap(),
        "The rows of a layer differ in length."
    );
    assert_eq!(
        KeyCodeMatrix::from_cells(&table(&[&["KC_A", "KC_Q"]]), &symbols()).err().unwrap(),
        "Failed to convert key tree into a key."
    );
    assert_eq!(
        KeyCodeMatrix::from_cells(&table(&[&[""]]), &symbols()).err().unwrap(),
        "Key description is empty."
    );
}

#[test]
fn layers_are_added_in_the_order_of_the_file() {
    let mut fx = empty_driver();
    let layers = vec![
        layer("base", true, &[&["KC_A", "TG(up)"]]),
        layer("up", false, &[&["KC_B", "____"]]),
    ];
    fx.add_layers(&layers, &symbols()).unwrap();
    assert_eq!(fx.layer_attributes.len(), 2);
    assert_eq!(fx.layer_attributes.index_of("base"), Some(0));
    assert_eq!(fx.layer_attributes.index_of("up"), Some(1));
    assert!(fx.layer_attributes.is_enabled(0));
    assert!(!fx.layer_attributes.is_enabled(1));
    assert!(fx.verify().is_ok());
    assert!(fx.can_tick());

    // The second cell toggles the upper layer, whose first cell then takes events.
    fx.input.events.push(KeyState(KEY_2, KeyStateChange::Pressed).into());
    fx.input.events.push(KeyState(KEY_1, KeyStateChange::Pressed).into());
    fx.clock_tick(now());
    assert_eq!(fx.output.events.len(), 1);
    assert_eq!(fx.output.events[0].event_code, 48);
}

#[test]
fn layers_with_a_fault_leave_the_driver_as_it_is() {
    let mut fx = empty_driver();
    let layers = vec![
        layer("base", true, &[&["KC_A", "TG(up)"]]),
        layer("up", false, &[&["KC_B", "WRAP(KC_A)"]]),
    ];
    assert_eq!(
        fx.add_layers(&layers, &symbols()).err().unwrap(),
        "Failed to convert key tree into a key."
    );
    assert_eq!(fx.layer_attributes.len(), 0);
    assert_eq!(fx.layered_codes.len(), 0);
}

#[test]
fn verify_finds_mismatched_dimensions() {
    let mut fx = empty_driver();
    fx.add_layers(&vec![layer("base", true, &[&["KC_A", "KC_B", "KC_A"]])], &symbols()).unwrap();
    assert_eq!(
        fx.verify().err().unwrap(),
        "Mismatched matrices- the virtual matrix is 1x2, but layer \"0\" (#base) is 1x3."
    );
    assert!(!fx.can_tick());
}

#[test]
fn verify_finds_rows_of_other_length() {
    let mut fx = empty_driver();
    fx.matrix =
        VirtualKeyboardMatrix::from_cells(&table(&[&["KC_1", "KC_2"], &["____", "____"]]), &symbols())
            .unwrap();
    let mut codes = KeyCodeMatrix::new((2, 2));
    codes.codes[1].push(KeyCode::Opaque(OpaqueKey {}));
    fx.add_layer(LayerAttributes { name: "base".to_string(), enabled: true }, codes);
    assert_eq!(
        fx.verify().err().unwrap(),
        "Mismatched matrices- the virtual matrix is 2x2, but layer \"0\" (#base) is 2x3."
    );
}

#[test]
fn verify_finds_unknown_layer() {
    let mut fx = empty_driver();
    fx.add_layers(&vec![layer("base", true, &[&["KC_A", "TG(nav)"]])], &symbols()).unwrap();
    assert_eq!(
        fx.verify().err().unwrap(),
        "Key constraint violated: the key at 0x1 on layer \"base\" references \"nav\",but no layer exists with that name."
    );
    assert!(!fx.can_tick());
}

#[test]
fn verify_finds_key_that_is_not_transparent() {
    let mut fx = empty_driver();
    let layers = vec![
        layer("base", true, &[&["MO(up)", "KC_A"]]),
        layer("up", false, &[&["KC_B", "KC_A"]]),
    ];
    fx.add_layers(&layers, &symbols()).unwrap();
    assert_eq!(
        fx.verify().err().unwrap(),
        "Key constraint violated: the key at 0x0 on layer \"base\" requires the key at 0x0 on \"up\" to be transparent."
    );
    // The tick itself can run.
    assert!(fx.can_tick());
    fx.layered_codes[1].codes[0][0] = KeyCode::MomentarilyEnableLayer(MomentarilyEnableLayerKey {
        layer_name: "up".to_string(),
    });
    assert!(fx.verify().is_err());
    fx.layered_codes[1] = KeyCodeMatrix::new((1, 2));
    assert!(fx.verify().is_ok());
}

#[test]
fn dimensions_come_before_constraints() {
    let mut fx = empty_driver();
    let layers = vec![
        layer("base", true, &[&["TG(nav)", "KC_A"]]),
        layer("up", false, &[&["KC_B"]]),
    ];
    fx.add_layers(&layers, &symbols()).unwrap();
    assert_eq!(
        fx.verify().err().unwrap(),
        "Mismatched matrices- the virtual matrix is 1x2, but layer \"1\" (#up) is 1x1."
    );
}

#[test]
fn tick_cannot_run_with_unknown_layer_inside_a_key() {
    let mut fx = empty_driver();
    let mut codes = KeyCodeMatrix::new((1, 2));
    codes.codes[0][0] = KeyCode::Wrapped(WrappedKey {
        inside: Box::new(KeyCode::ToggleLayer(ToggleLayerKey { layer_name: "nav".to_string() })),
        outside: NormalKey { value: KEY_A },
    });
    fx.add_layer(LayerAttributes { name: "base".to_string(), enabled: true }, codes);
    // The constraints of the key inside are not among those of the wrapped key.
    assert!(fx.verify().is_ok());
    assert!(!fx.can_tick());
    fx.add_layer(
        LayerAttributes { name: "nav".to_string(), enabled: false },
        KeyCodeMatrix::new((1, 2)),
    );
    assert!(fx.can_tick());
}

#[test]
fn tick_cannot_run_where_counts_would_overflow() {
    let mut fx = empty_driver();
    let mut codes = KeyCodeMatrix::new((1, 2));
    codes.codes[0][0] = KeyCode::Normal(NormalKey { value: KEY_A });
    fx.add_layer(LayerAttributes { name: "base".to_string(), enabled: true }, codes);
    assert!(fx.can_tick());
    // Two cells and one pending event may send three events.
    fx.input.events.push(KeyState(KEY_1, KeyStateChange::Pressed).into());
    fx.output.stats.set(KeyStateChange::Held, u32::MAX - 3);
    assert!(fx.can_tick());
    fx.output.stats.set(KeyStateChange::Held, u32::MAX - 2);
    assert!(!fx.can_tick());
    fx.output.stats.set(KeyStateChange::Held, 0);
    fx.input.stats.set(KeyStateChange::Pressed, u32::MAX);
    assert!(!fx.can_tick());
}

#[test]
fn tick_cannot_run_on_events_without_key_state() {
    let mut fx = empty_driver();
    fx.add_layer(
        LayerAttributes { name: "base".to_string(), enabled: true },
        KeyCodeMatrix::new((1, 2)),
    );
    let mut e: InputEvent = KeyState(KEY_1, KeyStateChange::Pressed).into();
    e.value = 3;
    fx.input.events.push(e);
    assert!(!fx.can_tick());
    fx.input.events[0].value = 1;
    assert!(fx.can_tick());
    fx.input.events[0].event_type = 0;
    assert!(!fx.can_tick());
}

#[test]
fn tick_cannot_run_with_scheduled_event_for_unknown_layer() {
    let mut fx = empty_driver();
    fx.add_layer(
        LayerAttributes { name: "base".to_string(), enabled: true },
        KeyCodeMatrix::new((1, 2)),
    );
    assert!(fx.layer_attributes.callbacks_known());
    fx.layer_attributes.schedule_event_count_callback(ScheduledLayerEvent {
        layer_name: "gone".to_string(),
        event_type: KeyStateChange::Released,
        event_count: 9,
        enable_layer_at_event: false,
    });
    assert!(!fx.layer_attributes.callbacks_known());
    assert!(!fx.can_tick());
}

#[test]
fn demand_of_keys() {
    let one_shot = KeyCode::OneShotLayer(OneShotLayer { layer_name: "up".to_string() });
    assert_eq!(one_shot.demand_within(5), Some(1));
    let wrapped = KeyCode::Wrapped(WrappedKey {
        inside: Box::new(KeyCode::Normal(NormalKey { value: KEY_A })),
        outside: NormalKey { value: KEY_1 },
    });
    assert_eq!(wrapped.demand_within(5), Some(2));
    assert_eq!(wrapped.demand_within(1), None);
    assert_eq!(KeyCode::Opaque(OpaqueKey {}).demand_within(0), Some(0));
    let mut fx = empty_driver();
    assert_eq!(fx.max_demand(), Some(1));
    let mut codes = KeyCodeMatrix::new((1, 2));
    codes.codes[0][1] = wrapped;
    fx.add_layer(LayerAttributes { name: "base".to_string(), enabled: true }, codes);
    assert_eq!(fx.max_demand(), Some(2));
    assert!(fx.keys_fit_matrix());
}

#[test]
fn key_from_its_text() {
    let s = symbols();
    assert!(matches!(
        libspacecadet::loading::key_from_text("WRAP(KC_LEFTSHIFT,KC_A)", &s).unwrap(),
        KeyCode::Wrapped(_)
    ));
    assert_eq!(
        libspacecadet::loading::key_from_text("", &s).err().unwrap(),
        "Key description is empty."
    );
    assert_eq!(
        libspacecadet::loading::key_from_text("A((", &s).err().unwrap(),
        "The \"(\" token can't be followed by another \"(\"."
    );
}
