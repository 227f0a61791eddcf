use libspacecadet::keys::{KeyCode, NormalKey, TransparentKey};
use libspacecadet::input_event::SimpleKey;
use libspacecadet::layer::{KeyCodeMatrix, LayerAttributes, LayerCollection, ScheduledLayerEvent};
use libspacecadet::virtual_keyboard_matrix::{KeyStateChange, KeyStats};

#[test]
fn key_code_matrix_dims() {
    let zero = (0, 0);
    let non_zero = (1, 2);
    assert_eq!(KeyCodeMatrix::new(zero).dim(), zero);
    assert_eq!(KeyCodeMatrix::new(non_zero).dim(), non_zero);
}

#[test]
fn key_code_matrix_is_transparent_at_first() {
    let m = KeyCodeMatrix::new((2, 3));
    assert_eq!(m.codes.len(), 2);
    for row in m.codes.iter() {
        assert_eq!(row.len(), 3);
        for key in row.iter() {
            assert!(key.is_transparent());
        }
    }
}

#[test]
fn key_code_matrix_check_shape() {
    let mut m = KeyCodeMatrix::new((2, 2));
    assert_eq!(m.check_shape((2, 2)), None);
    assert_eq!(m.check_shape((2, 3)), Some((2, 2)));
    m.codes[1].push(KeyCode::Transparent(TransparentKey {}));
    assert_eq!(m.check_shape((2, 2)), Some((2, 3)));
    m.codes[1][0] = KeyCode::Normal(NormalKey { value: SimpleKey { code: 30 } });
    assert!(!m.codes[1][0].is_transparent());
}

#[test]
fn layer_collection_get_set() {
    let mut item = LayerCollection::new();
    let to_add = LayerAttributes { name: "foo".to_string(), enabled: true };
    item.add(to_add);
    assert_eq!(item.len(), 1);
    assert!(item.is_enabled(0));
    item.set("foo", false);
    assert!(!item.is_enabled(0));
    item.toggle("foo");
    assert!(item.is_enabled(0));
}

#[test]
fn layer_collection_event_count_callback() {
    let mut item = LayerCollection::new();
    let to_add = LayerAttributes { name: "foo".to_string(), enabled: true };
    item.add(to_add);

    // Schedule an two event call backs.
    item.schedule_event_count_callback(ScheduledLayerEvent {
        layer_name: "foo".to_string(),
        event_type: KeyStateChange::Pressed,
        event_count: 10,
        enable_layer_at_event: false,
    });
    item.schedule_event_count_callback(ScheduledLayerEvent {
        layer_name: "foo".to_string(),
        event_type: KeyStateChange::Released,
        event_count: 5,
        enable_layer_at_event: true,
    });

    // Manipulate the stats and check that layers turn off and back on.
    let mut s = KeyStats::new();
    item.check_event_callbacks(s);
    assert!(item.is_enabled(0));
    s.set(KeyStateChange::Pressed, 10);
    item.check_event_callbacks(s);
    assert!(!item.is_enabled(0));
    s.set(KeyStateChange::Released, 6);
    item.check_event_callbacks(s);
    assert!(item.is_enabled(0));
}

#[test]
fn scheduled_event_is_applied_once() {
    let mut item = LayerCollection::new();
    item.add(LayerAttributes { name: "foo".to_string(), enabled: true });
    item.schedule_event_count_callback(ScheduledLayerEvent {
        layer_name: "foo".to_string(),
        event_type: KeyStateChange::Released,
        event_count: 1,
        enable_layer_at_event: false,
    });
    let mut s = KeyStats::new();
    s.set(KeyStateChange::Released, 1);
    item.check_event_callbacks(s);
    assert!(!item.is_enabled(0));
    // The event is gone: a layer that is enabled again stays enabled.
    item.set("foo", true);
    item.check_event_callbacks(s);
    assert!(item.is_enabled(0));
}

#[test]
fn scheduled_events_apply_in_their_order() {
    let mut item = LayerCollection::new();
    item.add(LayerAttributes { name: "foo".to_string(), enabled: false });
    item.schedule_event_count_callback(ScheduledLayerEvent {
        layer_name: "foo".to_string(),
        event_type: KeyStateChange::Held,
        event_count: 0,
        enable_layer_at_event: true,
    });
    item.schedule_event_count_callback(ScheduledLayerEvent {
        layer_name: "foo".to_string(),
        event_type: KeyStateChange::Held,
        event_count: 0,
        enable_layer_at_event: false,
    });
    item.check_event_callbacks(KeyStats::new());
    assert!(!item.is_enabled(0));
}

#[test]
fn later_layer_of_a_name_takes_the_name() {
    let mut item = LayerCollection::new();
    item.add(LayerAttributes { name: "a".to_string(), enabled: false });
    item.add(LayerAttributes { name: "b".to_string(), enabled: false });
    item.add(LayerAttributes { name: "a".to_string(), enabled: false });
    assert_eq!(item.len(), 3);
    assert_eq!(item.index_of("a"), Some(2));
    assert_eq!(item.index_of("b"), Some(1));
    assert_eq!(item.index_of("c"), None);
    assert!(item.contains("b"));
    assert!(!item.contains("c"));
    assert_eq!(item.name_of(1), "b");
    item.set("a", true);
    assert!(!item.is_enabled(0));
    assert!(item.is_enabled(2));
}
