use libspacecadet::input_event::{InputEvent, KeyState, SimpleKey, EV_KEY};
use libspacecadet::keyboard_driver::KeyboardDriver;
use libspacecadet::keys::{
    ActivateLayerKey, HoldEnableLayerPressKey, KeyCode, KeyConstraint, MacroKey,
    MomentarilyEnableLayerKey,
    NormalKey, OneShotLayer, OpaqueKey, SpaceCadet, ToggleLayerKey, TransparentKey, WrappedKey,
};
use libspacecadet::layer::{KeyCodeMatrix, LayerAttributes, LayerCollection};
use libspacecadet::test_io_keyboard::{TestInputKeyboard, TestOutputKeyboard};
use libspacecadet::time::{Duration, Instant};
use libspacecadet::virtual_keyboard_matrix::{KeyStateChange, VirtualKeyboardMatrix};

const KEY_1: SimpleKey = SimpleKey { code: 2 };
const KEY_2: SimpleKey = SimpleKey { code: 3 };
const KEY_A: SimpleKey = SimpleKey { code: 30 };
const KEY_B: SimpleKey = SimpleKey { code: 48 };
const KEY_H: SimpleKey = SimpleKey { code: 35 };
const KEY_I: SimpleKey = SimpleKey { code: 23 };
const KEY_Y: SimpleKey = SimpleKey { code: 21 };
const KEY_Z: SimpleKey = SimpleKey { code: 44 };
const KEY_LEFTSHIFT: SimpleKey = SimpleKey { code: 42 };

type TestDriver = KeyboardDriver<TestInputKeyboard, TestOutputKeyboard>;

fn now() -> Instant {
    Instant::from_nanos(3_600_000_000_000)
}

fn later(t: Instant, span: Duration) -> Instant {
    t.checked_add(span).unwrap()
}

fn normal(key: SimpleKey) -> KeyCode {
    KeyCode::Normal(NormalKey { value: key })
}

/// Utility for setting up a test driver with one key.
fn get_test_driver(key: KeyCode) -> TestDriver {
    get_test_driver_multilayer(vec![key])
}

/// Utility for setting up a test driver with one key on each layer.
fn get_test_driver_multilayer(keys: Vec<KeyCode>) -> TestDriver {
    assert!(!keys.is_empty());
    let mut layers = LayerCollection::new();
    let mut layer_codes = Vec::new();
    for i in keys.into_iter().enumerate() {
        layers.add(LayerAttributes { name: format!("layer_{}", i.0), enabled: i.0 == 0 });

        let mut codes = KeyCodeMatrix::new((1, 2));
        codes.codes[0][0] = i.1;
        layer_codes.push(codes);
    }

    TestDriver {
        input: TestInputKeyboard::new(),
        output: TestOutputKeyboard::new(),
        layer_attributes: layers,
        layered_codes: layer_codes,
        matrix: VirtualKeyboardMatrix::new(vec![vec![Some(KEY_1), Some(KEY_2)]], None),
    }
}

fn key_event(key: SimpleKey, change: KeyStateChange) -> InputEvent {
    KeyState(key, change).into()
}

fn check_events(events: &Vec<InputEvent>, values: &[KeyStateChange], codes: &[SimpleKey]) {
    assert_eq!(events.len(), values.len());
    for i in events.iter().enumerate() {
        assert_eq!(i.1.value, values[i.0] as i32);
        assert_eq!(i.1.event_type, EV_KEY);
        assert_eq!(i.1.event_code, codes[i.0].code);
    }
}

#[test]
fn key_state_into_event() {
    let e: InputEvent = KeyState(KEY_A, KeyStateChange::Held).into();
    assert_eq!(e.event_type, EV_KEY);
    assert_eq!(e.event_code, 30);
    assert_eq!(e.value, 2);
    assert_eq!(e.time.tv_sec, 0);
    assert_eq!(e.time.tv_usec, 0);
    assert_eq!(e.key(), Some(KEY_A));
    assert!(e.has_key_state());
}

#[test]
fn normal_key() {
    let mut fx = get_test_driver(normal(KEY_A));

    let position: SimpleKey = KEY_1;
    let press = key_event(position, KeyStateChange::Pressed);
    let hold = key_event(position, KeyStateChange::Held);
    let release = key_event(position, KeyStateChange::Released);

    // Simulate a key press, hold, and release.
    // Because the hold occurs in a single clock tick, we should expect just two events.
    fx.input.events = vec![press, hold, release];
    fx.clock_tick(now());
    assert_eq!(fx.output.events.len(), 2);
    check_events(
        &fx.output.events,
        &[KeyStateChange::Pressed, KeyStateChange::Released],
        &[KEY_A, KEY_A],
    );
}

fn check_noop_key(key: KeyCode) {
    let mut fx = get_test_driver(key);
    fx.input.events = vec![key_event(KEY_1, KeyStateChange::Pressed)];
    fx.clock_tick(now());
    assert!(fx.output.events.is_empty());
}

#[test]
fn transparent_key() {
    check_noop_key(KeyCode::Transparent(TransparentKey {}));
}

#[test]
fn opaque_key() {
    check_noop_key(KeyCode::Opaque(OpaqueKey {}));
}

#[test]
fn macro_key() {
    // Construct a driver with a single macro key.
    let key = MacroKey {
        play_macro_when: KeyStateChange::Released,
        keys: vec![NormalKey { value: KEY_H }, NormalKey { value: KEY_I }],
    };
    let mut fx = get_test_driver(KeyCode::Macro(key));

    // Process a press event.
    let t = now();
    fx.input.events.push(key_event(KEY_1, KeyStateChange::Pressed));
    fx.clock_tick(t);
    assert_eq!(fx.output.events.len(), 0);

    // Process a release event (this should trigger the macro).
    fx.input.events.push(key_event(KEY_1, KeyStateChange::Released));
    fx.clock_tick(t);
    assert_eq!(fx.output.events.len(), 4);

    // Check that the order is press then release.
    for i in fx.output.events.iter().enumerate() {
        if i.0 % 2 == 0 {
            assert_eq!(i.1.value, KeyStateChange::Pressed as i32)
        } else {
            assert_eq!(i.1.value, KeyStateChange::Released as i32);
        }
    }
    check_events(
        &fx.output.events,
        &[
            KeyStateChange::Pressed,
            KeyStateChange::Released,
            KeyStateChange::Pressed,
            KeyStateChange::Released,
        ],
        &[KEY_H, KEY_H, KEY_I, KEY_I],
    );
}

#[test]
fn toggle_layer_key() {
    // Create a driver with a toggle layer key on layer_0, and a simple key on layer_1
    let key = ToggleLayerKey { layer_name: "layer_1".to_string() };
    let plain_key = NormalKey { value: KEY_A };
    let mut fx = get_test_driver_multilayer(vec![
        KeyCode::ToggleLayer(key),
        KeyCode::Normal(plain_key.clone()),
    ]);

    // Toggle the layer on key press.
    assert!(!fx.layer_attributes.is_enabled(1));
    fx.input.events.push(key_event(KEY_1, KeyStateChange::Pressed));
    fx.clock_tick(now());
    assert!(fx.layer_attributes.is_enabled(1));

    // The layer changed on key-down. The key-press event could be registered
    // on a random key- check that we're blocking this.
    assert!(fx.input.events.is_empty());
    assert!(fx.output.events.is_empty());
    fx.input.events.push(key_event(KEY_1, KeyStateChange::Released));
    fx.clock_tick(now());
    assert!(fx.output.events.is_empty());

    // Suppose that the user presses the key again.
    // This should register on the second layer.
    fx.input.events.push(key_event(KEY_1, KeyStateChange::Pressed));
    fx.clock_tick(now());
    assert_eq!(fx.output.events.len(), 1);
    assert_eq!(fx.output.events[0].event_code, plain_key.value.code);
    assert_eq!(fx.output.events[0].value, 1);
}

#[test]
fn momentarily_enable_layer_key() {
    // Setup the test driver.
    let test_key = MomentarilyEnableLayerKey { layer_name: "layer_1".to_string() };
    let plain_key = TransparentKey {};
    let mut fx = get_test_driver_multilayer(vec![
        KeyCode::MomentarilyEnableLayer(test_key),
        KeyCode::Transparent(plain_key),
    ]);

    let press = key_event(KEY_1, KeyStateChange::Pressed);
    let release = key_event(KEY_1, KeyStateChange::Released);

    // The test key enables a layer on press, and disables on release.
    assert!(!fx.layer_attributes.is_enabled(1));
    fx.input.events.push(press);
    fx.clock_tick(now());
    assert!(fx.layer_attributes.is_enabled(1));
    fx.input.events.push(release);
    fx.clock_tick(now());
    assert!(!fx.layer_attributes.is_enabled(1));
}

#[test]
fn activate_layer_key() {
    // Setup the test driver.
    let test_key = ActivateLayerKey { layer_name: "layer_1".to_string() };
    let plain_key = NormalKey { value: KEY_A };
    let mut fx = get_test_driver_multilayer(vec![
        KeyCode::ActivateLayer(test_key),
        KeyCode::Normal(plain_key.clone()),
    ]);

    let press = key_event(KEY_1, KeyStateChange::Pressed);
    let release = key_event(KEY_1, KeyStateChange::Released);

    // Simulate a press.
    assert!(!fx.layer_attributes.is_enabled(1));
    fx.input.events.push(press);
    fx.clock_tick(now());
    assert!(fx.layer_attributes.is_enabled(1));

    // Check that the release is blocked.
    fx.input.events.push(release);
    fx.clock_tick(now());
    assert!(fx.output.events.is_empty());
}

#[test]
fn hold_enable_layer_press_key() {
    // Setup the driver with the test key at (0, 0).
    let not_hold = Duration::from_millis(10);
    let theshold = Duration::from_millis(15);
    let hold = Duration::from_millis(20);
    let long_pause = Duration::from_secs(60);
    let mut t = now();

    // Configure the driver.
    let test_key = HoldEnableLayerPressKey::new("layer_1", NormalKey { value: KEY_A }, theshold);
    let plain_key = NormalKey { value: KEY_B };
    let mut fx = get_test_driver_multilayer(vec![
        KeyCode::HoldEnableLayerPress(test_key),
        KeyCode::Normal(plain_key),
    ]);

    let press = key_event(KEY_1, KeyStateChange::Pressed);
    let release = key_event(KEY_1, KeyStateChange::Released);

    // Test the quick press + release that emits a key
    // instead of modifying the layers states.
    fx.input.events.push(press.clone());
    fx.clock_tick(t);
    assert!(!fx.layer_attributes.is_enabled(1));
    assert!(fx.output.events.is_empty());

    // Release the key before it registers as a hold.
    // This should emit A (both press and release).
    fx.input.events.push(release.clone());
    fx.clock_tick(later(t, not_hold));
    assert!(!fx.layer_attributes.is_enabled(1));
    assert_eq!(fx.output.events.len(), 2);
    check_events(
        &fx.output.events,
        &[KeyStateChange::Pressed, KeyStateChange::Released],
        &[KEY_A, KEY_A],
    );

    // Reset the output, then simulate a long pause.
    fx.output.events.clear();
    t = later(t, long_pause);

    // Test the press + hold + release that should enable a layer.
    fx.input.events.push(press);
    fx.clock_tick(t);
    assert!(!fx.layer_attributes.is_enabled(1));
    assert!(fx.output.events.is_empty());

    // Release the key - it should register as being held long enough.
    fx.input.events.push(release.clone());
    fx.clock_tick(later(t, hold));
    assert!(fx.layer_attributes.is_enabled(1));
    assert!(fx.output.events.is_empty());
}

#[test]
fn hold_enable_layer_on_held() {
    // The matrix reports a hold after 200 ms, which is beyond the key's 15 ms.
    let test_key =
        HoldEnableLayerPressKey::new("layer_1", NormalKey { value: KEY_A }, Duration::from_millis(15));
    let mut fx = get_test_driver_multilayer(vec![
        KeyCode::HoldEnableLayerPress(test_key),
        normal(KEY_B),
    ]);
    let t = now();
    fx.input.events.push(key_event(KEY_1, KeyStateChange::Pressed));
    fx.clock_tick(t);
    fx.clock_tick(later(t, Duration::from_millis(100)));
    assert!(!fx.layer_attributes.is_enabled(1));
    fx.clock_tick(later(t, Duration::from_millis(200)));
    assert!(fx.layer_attributes.is_enabled(1));
    // The release that follows is held back from the new layer.
    fx.input.events.push(key_event(KEY_1, KeyStateChange::Released));
    fx.clock_tick(later(t, Duration::from_millis(210)));
    assert!(fx.output.events.is_empty());
}

#[test]
fn one_shot_layer() {
    let test_key = OneShotLayer { layer_name: "layer_1".to_string() };
    let plain_key = NormalKey { value: KEY_B };
    let mut fx = get_test_driver_multilayer(vec![
        KeyCode::OneShotLayer(test_key),
        KeyCode::Normal(plain_key),
    ]);

    let press1 = key_event(KEY_1, KeyStateChange::Pressed);
    let release1 = key_event(KEY_1, KeyStateChange::Released);

    // The layer should be enabled on press.
    assert!(!fx.layer_attributes.is_enabled(1));
    fx.input.events.push(press1);
    fx.clock_tick(now());
    assert!(fx.layer_attributes.is_enabled(1));

    // The following release event shouldn't output any events.
    fx.input.events.push(release1);
    fx.clock_tick(now());
    assert!(fx.output.events.is_empty());

    // We should be able to press and release a key on the newly enabled layer.
    // The driver's missing a key in the second column - we'll add one for the test.
    fx.layered_codes[1].codes[0][1] = normal(KEY_Z);
    let press2 = key_event(KEY_2, KeyStateChange::Pressed);
    let release2 = key_event(KEY_2, KeyStateChange::Released);

    // Press.
    assert!(fx.layer_attributes.is_enabled(1));
    fx.input.events.push(press2);
    fx.clock_tick(now());
    assert_eq!(fx.output.events.len(), 1);
    assert!(fx.layer_attributes.is_enabled(1));

    // Release.
    fx.input.events.push(release2);
    fx.clock_tick(now());
    assert_eq!(fx.output.events.len(), 2);
    assert!(!fx.layer_attributes.is_enabled(1));
    check_events(
        &fx.output.events,
        &[KeyStateChange::Pressed, KeyStateChange::Released],
        &[KEY_Z, KEY_Z],
    );
}

#[test]
fn modifier_wrapped_key() {
    let test_key = WrappedKey {
        inside: Box::new(normal(KEY_Z)),
        outside: NormalKey { value: KEY_LEFTSHIFT },
    };
    let mut fx = get_test_driver(KeyCode::Wrapped(test_key));
    let press = key_event(KEY_1, KeyStateChange::Pressed);
    let release = key_event(KEY_1, KeyStateChange::Released);

    let t0 = now();
    let t1 = later(t0, Duration::from_secs(10));
    let t2 = later(t1, Duration::from_millis(10));

    // Press.
    fx.input.events.push(press);
    fx.clock_tick(t0);
    assert_eq!(fx.output.events.len(), 2);

    // Hold.
    fx.clock_tick(t1);
    assert_eq!(fx.output.events.len(), 3);

    // Release.
    fx.input.events.push(release);
    fx.clock_tick(t2);
    assert_eq!(fx.output.events.len(), 5);

    // Check ordering and values.
    let values = [
        KeyStateChange::Pressed,
        KeyStateChange::Pressed,
        KeyStateChange::Held,
        KeyStateChange::Released,
        KeyStateChange::Released,
    ];
    let codes = [KEY_LEFTSHIFT, KEY_Z, KEY_Z, KEY_Z, KEY_LEFTSHIFT];
    check_events(&fx.output.events, &values, &codes);
}

#[test]
fn space_cadet_taprelease() {
    // Setup the driver.
    let test_key =
        SpaceCadet::new_from_key(NormalKey { value: KEY_Z }, NormalKey { value: KEY_LEFTSHIFT });
    let mut fx = get_test_driver(KeyCode::SpaceCadet(test_key));

    let press = key_event(KEY_1, KeyStateChange::Pressed);
    let release = key_event(KEY_1, KeyStateChange::Released);

    // Quickly tap and release the key.
    // This should result in a Z being pressed + released.
    let t = now();
    let t1 = later(t, Duration::from_millis(10));
    fx.input.events.push(press);
    fx.clock_tick(t);
    assert!(fx.output.events.is_empty());
    fx.input.events.push(release);
    fx.clock_tick(t1);
    assert_eq!(fx.output.events.len(), 2);

    // Check values for equality.
    let values = [KeyStateChange::Pressed, KeyStateChange::Released];
    let codes = [KEY_Z, KEY_Z];
    check_events(&fx.output.events, &values, &codes);
}

#[test]
fn space_cadet_hold() {
    // Setup the driver.
    let test_key =
        SpaceCadet::new_from_key(NormalKey { value: KEY_Z }, NormalKey { value: KEY_LEFTSHIFT });
    let mut fx = get_test_driver(KeyCode::SpaceCadet(test_key));
    fx.layered_codes[0].codes[0][1] = normal(KEY_Y);

    let press1 = key_event(KEY_1, KeyStateChange::Pressed);
    let release1 = key_event(KEY_1, KeyStateChange::Released);
    let press2 = key_event(KEY_2, KeyStateChange::Pressed);
    let release2 = key_event(KEY_2, KeyStateChange::Released);

    // Press the spacecadet key, then press a second key while the
    // spacecadet is still being held.
    let t = now();
    let event_sequence = [press1, press2.clone(), release2.clone(), press2, release2, release1];
    for i in event_sequence.iter().enumerate() {
        fx.input.events.push(i.1.clone());
        fx.clock_tick(later(t, Duration::from_millis(10 * (i.0 as u64))));
    }

    assert_eq!(fx.output.events.len(), 6);

    // Check the sequence of output events.
    let values = [
        KeyStateChange::Pressed,
        KeyStateChange::Pressed,
        KeyStateChange::Released,
        KeyStateChange::Pressed,
        KeyStateChange::Released,
        KeyStateChange::Released,
    ];
    let codes = [KEY_LEFTSHIFT, KEY_Y, KEY_Y, KEY_Y, KEY_Y, KEY_LEFTSHIFT];
    check_events(&fx.output.events, &values, &codes);
}

#[test]
fn event_from_outside_the_matrix_is_passed_on() {
    let mut fx = get_test_driver(normal(KEY_A));
    let stranger = key_event(KEY_H, KeyStateChange::Released);
    fx.input.events.push(stranger);
    fx.clock_tick(now());
    assert_eq!(fx.output.events, vec![stranger]);
    // More releases than presses have left the output keyboard.
    assert_eq!(fx.output.stats.get(KeyStateChange::Released), 1);
    assert_eq!(fx.output.stats.get(KeyStateChange::Pressed), 0);
}

#[test]
fn highest_enabled_layer_that_is_not_transparent_takes_the_event() {
    let mut fx = get_test_driver_multilayer(vec![
        normal(KEY_A),
        normal(KEY_B),
        KeyCode::Transparent(TransparentKey {}),
        normal(KEY_Z),
    ]);
    // Layers 1 and 2 are enabled, layer 3 is not.
    fx.layer_attributes.set("layer_1", true);
    fx.layer_attributes.set("layer_2", true);
    fx.input.events.push(key_event(KEY_1, KeyStateChange::Pressed));
    fx.clock_tick(now());
    check_events(&fx.output.events, &[KeyStateChange::Pressed], &[KEY_B]);
    // With an opaque key on top the event is dropped.
    fx.layered_codes[2].codes[0][0] = KeyCode::Opaque(OpaqueKey {});
    fx.input.events.push(key_event(KEY_1, KeyStateChange::Released));
    fx.clock_tick(now());
    assert_eq!(fx.output.events.len(), 1);
    // Where every enabled layer is transparent at the cell, the event is dropped too.
    fx.input.events.push(key_event(KEY_2, KeyStateChange::Pressed));
    fx.clock_tick(now());
    assert_eq!(fx.output.events.len(), 1);
}

#[test]
fn stats_count_events_when_they_leave() {
    let test_key =
        SpaceCadet::new_from_key(NormalKey { value: KEY_Z }, NormalKey { value: KEY_LEFTSHIFT });
    let mut fx = get_test_driver(KeyCode::SpaceCadet(test_key));
    fx.layered_codes[0].codes[0][1] = normal(KEY_Y);
    fx.input.events.push(key_event(KEY_1, KeyStateChange::Pressed));
    fx.clock_tick(now());
    // The press of the modifier waits in the buffer and is not counted.
    assert_eq!(fx.output.stats.get(KeyStateChange::Pressed), 0);
    fx.input.events.push(key_event(KEY_2, KeyStateChange::Pressed));
    fx.clock_tick(now());
    assert_eq!(fx.output.stats.get(KeyStateChange::Pressed), 2);
    assert_eq!(fx.input.stats.get(KeyStateChange::Pressed), 2);
}

#[test]
fn add_layer_keeps_layers_and_keys_paired() {
    let mut fx = get_test_driver(normal(KEY_A));
    let mut codes = KeyCodeMatrix::new((1, 2));
    codes.codes[0][0] = normal(KEY_B);
    fx.add_layer(LayerAttributes { name: "top".to_string(), enabled: true }, codes);
    assert_eq!(fx.layer_attributes.len(), 2);
    assert_eq!(fx.layered_codes.len(), 2);
    fx.input.events.push(key_event(KEY_1, KeyStateChange::Pressed));
    fx.clock_tick(now());
    check_events(&fx.output.events, &[KeyStateChange::Pressed], &[KEY_B]);
}

#[test]
fn constraints_of_keys() {
    let mo = KeyCode::MomentarilyEnableLayer(MomentarilyEnableLayerKey {
        layer_name: "nav".to_string(),
    });
    let rules = mo.get_constraints();
    assert_eq!(rules.len(), 2);
    assert!(matches!(&rules[0], KeyConstraint::LayerExists(n) if n == "nav"));
    assert!(matches!(&rules[1], KeyConstraint::KeyOnOtherLayerIsTransparent(n) if n == "nav"));
    let tg = KeyCode::ToggleLayer(ToggleLayerKey { layer_name: "nav".to_string() });
    let rules = tg.get_constraints();
    assert_eq!(rules.len(), 1);
    assert!(matches!(&rules[0], KeyConstraint::LayerExists(n) if n == "nav"));
    assert!(normal(KEY_A).get_constraints().is_empty());
    assert!(!normal(KEY_A).is_transparent());
    assert!(KeyCode::Transparent(TransparentKey {}).is_transparent());
    assert!(!KeyCode::Opaque(OpaqueKey {}).is_transparent());
}

#[test]
fn dispatch_of_one_change() {
    let mut fx = get_test_driver_multilayer(vec![
        normal(KEY_A),
        normal(KEY_B),
        KeyCode::Transparent(TransparentKey {}),
    ]);
    fx.layer_attributes.set("layer_2", true);
    // Layer 1 is disabled and layer 2 transparent: layer 0 takes the change.
    fx.matrix_state_changed((0, 0), KeyStateChange::Held, now());
    check_events(&fx.output.events, &[KeyStateChange::Held], &[KEY_A]);
    // At the second cell every key is transparent: nothing happens.
    fx.matrix_state_changed((0, 1), KeyStateChange::Pressed, now());
    assert_eq!(fx.output.events.len(), 1);
    assert_eq!(fx.output.stats.get(KeyStateChange::Pressed), 0);
}

#[test]
fn keys_that_count_nothing_need_no_room() {
    // The counts are full: a key can still handle what it sends nothing for.
    let mut fx = get_test_driver_multilayer(vec![
        KeyCode::HoldEnableLayerPress(HoldEnableLayerPressKey::new(
            "layer_1",
            NormalKey { value: KEY_A },
            Duration::from_millis(15),
        )),
        normal(KEY_B),
    ]);
    fx.output.stats.set(KeyStateChange::Pressed, u32::MAX);
    fx.matrix_state_changed((0, 0), KeyStateChange::Pressed, now());
    fx.matrix_state_changed((0, 0), KeyStateChange::Held, later(now(), Duration::from_millis(20)));
    assert!(fx.layer_attributes.is_enabled(1));
    assert!(fx.output.events.is_empty());
    let mut fx = get_test_driver_multilayer(vec![
        KeyCode::OneShotLayer(OneShotLayer { layer_name: "layer_1".to_string() }),
        normal(KEY_B),
    ]);
    fx.output.stats.set(KeyStateChange::Released, u32::MAX);
    fx.matrix_state_changed((0, 0), KeyStateChange::Released, now());
    fx.matrix_state_changed((0, 0), KeyStateChange::Held, now());
    assert!(!fx.layer_attributes.is_enabled(1));
    assert_eq!(KeyCode::Normal(NormalKey { value: KEY_A }).demand_within(3), Some(1));
}
