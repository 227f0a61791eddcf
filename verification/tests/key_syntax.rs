use libspacecadet::input_event::SimpleKey;
use libspacecadet::key_syntax::{convert_tokens_to_key, expecting_just_layer_arg, symbol_names};
use libspacecadet::loading::wanted_symbols;
use libspacecadet::keys::{
    ActivateLayerKey, HoldEnableLayerPressKey, KeyCode, MacroKey, MomentarilyEnableLayerKey,
    NormalKey, OneShotLayer, OpaqueKey, SpaceCadet, ToggleLayerKey, TransparentKey, WrappedKey,
};
use libspacecadet::parser::ParsedKeyTree;
use libspacecadet::symbols::KeySymbols;
use libspacecadet::text::{count_and_find, is_all, parse_u64, same_text, to_decimal};
use libspacecadet::time::{Duration, Instant};
use libspacecadet::virtual_keyboard_matrix::KeyStateChange;

fn symbols() -> KeySymbols {
    let mut s = KeySymbols::new();
    s.insert("KEY_A", 30);
    s.insert("KEY_H", 35);
    s.insert("KEY_I", 23);
    s.insert("KEY_Z", 44);
    s.insert("KEY_X", 45);
    s.insert("KEY_LEFTSHIFT", 42);
    s
}

fn tree(v: &str) -> ParsedKeyTree {
    ParsedKeyTree::create(v).unwrap()
}

#[test]
fn symbols_lookup() {
    let mut s = symbols();
    assert_eq!(s.lookup("KEY_A"), Some(SimpleKey { code: 30 }));
    assert_eq!(s.lookup("KEY_B"), None);
    assert_eq!(s.lookup("key_a"), None);
    s.insert("KEY_A", 31);
    assert_eq!(s.lookup("KEY_A"), Some(SimpleKey { code: 31 }));
}

#[test]
fn transparent_key_from_tokens() {
    assert!(TransparentKey::from_tokens(&tree("___")).is_ok());
    assert!(TransparentKey::from_tokens(&tree("_")).is_ok());
    assert!(TransparentKey::from_tokens(&tree("KC_TRANS")).is_ok());
    assert_eq!(
        TransparentKey::from_tokens(&tree("KC_A")).err().unwrap(),
        "Not a transparent key."
    );
    assert_eq!(
        TransparentKey::from_tokens(&tree("__X")).err().unwrap(),
        "Not a transparent key."
    );
    assert_eq!(
        TransparentKey::from_tokens(&tree("___(a)")).err().unwrap(),
        "Transparent keys don't have arguments"
    );
}

#[test]
fn opaque_key_from_tokens() {
    assert!(OpaqueKey::from_tokens(&tree("XXX")).is_ok());
    assert!(OpaqueKey::from_tokens(&tree("KC_OPAQUE")).is_ok());
    assert_eq!(OpaqueKey::from_tokens(&tree("XXx")).err().unwrap(), "Not an opaque key.");
    assert_eq!(
        OpaqueKey::from_tokens(&tree("XXX(a)")).err().unwrap(),
        "Opaque keys don't have arguments"
    );
}

#[test]
fn normal_key_from_tokens() {
    let s = symbols();
    assert_eq!(NormalKey::from_tokens(&tree("KC_A"), &s).unwrap().value, SimpleKey { code: 30 });
    assert_eq!(
        NormalKey::from_tokens(&tree("KC_LEFTSHIFT"), &s).unwrap().value,
        SimpleKey { code: 42 }
    );
    // Only what follows the underscore counts.
    assert_eq!(NormalKey::from_tokens(&tree("FOO_Z"), &s).unwrap().value, SimpleKey { code: 44 });
    assert_eq!(
        NormalKey::from_tokens(&tree("KCA"), &s).err().unwrap(),
        "Missing an \"_\" character."
    );
    assert_eq!(
        NormalKey::from_tokens(&tree("KC_LEFT_SHIFT"), &s).err().unwrap(),
        "Too many \"_\" characters."
    );
    assert_eq!(
        NormalKey::from_tokens(&tree("KC_A(b)"), &s).err().unwrap(),
        "Simple keys don't have arguments"
    );
    assert_eq!(
        NormalKey::from_tokens(&tree("KC_B"), &s).err().unwrap(),
        "Couldn't convert \"KEY_B\" to an evdev key."
    );
}

#[test]
fn normal_key_name_is_put_in_upper_case() {
    let s = symbols();
    assert_eq!(NormalKey::from_tokens(&tree("kc_a"), &s).unwrap().value, SimpleKey { code: 30 });
    assert_eq!(
        NormalKey::from_tokens(&tree("kc_leftShift"), &s).unwrap().value,
        SimpleKey { code: 42 }
    );
    assert_eq!(
        NormalKey::from_tokens(&tree("kc_b"), &s).err().unwrap(),
        "Couldn't convert \"KEY_B\" to an evdev key."
    );
    // The table is looked up as it is.
    assert_eq!(NormalKey::from_symbol("KEY_A", &s).unwrap().value, SimpleKey { code: 30 });
    assert_eq!(
        NormalKey::from_symbol("key_a", &s).err().unwrap(),
        "Couldn't convert \"key_a\" to an evdev key."
    );
}

#[test]
fn macro_key_from_tokens() {
    let s = symbols();
    let key = MacroKey::from_tokens(&tree("MACRO(KC_H,KC_I)"), &s).unwrap();
    assert_eq!(key.play_macro_when, KeyStateChange::Pressed);
    assert_eq!(key.keys.len(), 2);
    assert_eq!(key.keys[0].value, SimpleKey { code: 35 });
    assert_eq!(key.keys[1].value, SimpleKey { code: 23 });
    assert_eq!(MacroKey::from_tokens(&tree("MACRO"), &s).unwrap().keys.len(), 0);
    assert_eq!(MacroKey::from_tokens(&tree("MAC(KC_H)"), &s).err().unwrap(), "Wrong identifier.");
    assert_eq!(
        MacroKey::from_tokens(&tree("MACRO(KC_H,KC_B,KCA)"), &s).err().unwrap(),
        "Couldn't convert \"KEY_B\" to an evdev key."
    );
}

#[test]
fn layer_argument() {
    assert_eq!(expecting_just_layer_arg(&tree("TG(nav)")).unwrap(), "nav");
    assert_eq!(expecting_just_layer_arg(&tree("TG(nav,x)")).unwrap(), "nav");
    assert_eq!(expecting_just_layer_arg(&tree("TG")).err().unwrap(), "Missing layer name.");
    assert_eq!(expecting_just_layer_arg(&tree("TG(a,b,c)")).err().unwrap(), "Too many arguments.");
    assert_eq!(
        expecting_just_layer_arg(&tree("TG(nav(x))")).err().unwrap(),
        "Layer name doesn't have arguments"
    );
}

#[test]
fn layer_keys_from_tokens() {
    assert_eq!(ToggleLayerKey::from_tokens(&tree("TG(nav)")).unwrap().layer_name, "nav");
    assert_eq!(
        MomentarilyEnableLayerKey::from_tokens(&tree("MO(fn)")).unwrap().layer_name,
        "fn"
    );
    assert_eq!(ActivateLayerKey::from_tokens(&tree("AL(up)")).unwrap().layer_name, "up");
    assert_eq!(OneShotLayer::from_tokens(&tree("OSL(sym)")).unwrap().layer_name, "sym");
    assert_eq!(ToggleLayerKey::from_tokens(&tree("MO(nav)")).err().unwrap(), "Wrong identifier.");
    assert_eq!(
        MomentarilyEnableLayerKey::from_tokens(&tree("TG(nav)")).err().unwrap(),
        "Wrong identifier."
    );
    assert_eq!(ActivateLayerKey::from_tokens(&tree("AL")).err().unwrap(), "Missing layer name.");
    assert_eq!(
        OneShotLayer::from_tokens(&tree("OSL(a,b,c)")).err().unwrap(),
        "Too many arguments."
    );
}

#[test]
fn hold_enable_layer_press_key_from_tokens() {
    let s = symbols();
    let key = HoldEnableLayerPressKey::from_tokens(&tree("LT(nav,KC_A,150)"), &s).unwrap();
    assert_eq!(key.layer_name, "nav");
    assert_eq!(key.key.value, SimpleKey { code: 30 });
    assert_eq!(key.hold_threshold, Duration::from_nanos(150_000_000));
    assert_eq!(key.pressed_at, Instant::from_nanos(0));
    assert_eq!(
        HoldEnableLayerPressKey::from_tokens(&tree("TL(nav,KC_A,150)"), &s).err().unwrap(),
        "Wrong identifier."
    );
    assert_eq!(
        HoldEnableLayerPressKey::from_tokens(&tree("LT(nav,KC_A)"), &s).err().unwrap(),
        "Wrong number of arguments."
    );
    assert_eq!(
        HoldEnableLayerPressKey::from_tokens(&tree("LT(nav,KCA,150)"), &s).err().unwrap(),
        "Missing an \"_\" character."
    );
    assert_eq!(
        HoldEnableLayerPressKey::from_tokens(&tree("LT(nav,KC_A,15ms)"), &s).err().unwrap(),
        "Couldn't convert duration to milliseconds"
    );
}

#[test]
fn wrapped_key_from_tokens() {
    let s = symbols();
    let key = WrappedKey::from_tokens(&tree("WRAP(KC_LEFTSHIFT,KC_Z)"), &s).unwrap();
    assert_eq!(key.outside.value, SimpleKey { code: 42 });
    assert!(matches!(*key.inside, KeyCode::Normal(NormalKey { value: SimpleKey { code: 44 } })));
    let nested = WrappedKey::from_tokens(&tree("WRAP(KC_LEFTSHIFT,TG(nav))"), &s).unwrap();
    assert!(matches!(&*nested.inside, KeyCode::ToggleLayer(k) if k.layer_name == "nav"));
    assert_eq!(
        WrappedKey::from_tokens(&tree("WRAP(KC_LEFTSHIFT)"), &s).err().unwrap(),
        "Wrong number of arguments."
    );
    assert_eq!(
        WrappedKey::from_tokens(&tree("WRAP(KC_B,KC_Z)"), &s).err().unwrap(),
        "Couldn't convert \"KEY_B\" to an evdev key."
    );
    assert_eq!(
        WrappedKey::from_tokens(&tree("WRAP(KC_A,nothing)"), &s).err().unwrap(),
        "Failed to convert key tree into a key."
    );
}

#[test]
fn space_cadet_from_tokens() {
    let s = symbols();
    let key = SpaceCadet::from_tokens(&tree("SPACECADET(KC_Z,KC_LEFTSHIFT)"), &s).unwrap();
    assert_eq!(key.when_held.value, SimpleKey { code: 42 });
    assert_eq!(key.number_of_keys_pressed, 0);
    assert!(matches!(
        *key.when_tapped,
        KeyCode::Normal(NormalKey { value: SimpleKey { code: 44 } })
    ));
    assert_eq!(
        SpaceCadet::from_tokens(&tree("SPACECADET(KC_Z)"), &s).err().unwrap(),
        "Wrong number of arguments."
    );
    assert_eq!(
        SpaceCadet::from_tokens(&tree("SPACECADET(KC_Z,SHIFT)"), &s).err().unwrap(),
        "Missing an \"_\" character."
    );
}

#[test]
fn kinds_of_key_are_tried_in_order() {
    let s = symbols();
    let convert = |v: &str| convert_tokens_to_key(&tree(v), &s);
    assert!(matches!(*convert("KC_A").unwrap(), KeyCode::Normal(_)));
    // No key is called KEY_TRANS or KEY_OPAQUE.
    assert!(matches!(*convert("KC_TRANS").unwrap(), KeyCode::Transparent(_)));
    assert!(matches!(*convert("KC_OPAQUE").unwrap(), KeyCode::Opaque(_)));
    assert!(matches!(*convert("_______").unwrap(), KeyCode::Transparent(_)));
    assert!(matches!(*convert("XXXXXXX").unwrap(), KeyCode::Opaque(_)));
    // A hardware key comes before an opaque key.
    assert!(matches!(
        *convert("X_X").unwrap(),
        KeyCode::Normal(NormalKey { value: SimpleKey { code: 45 } })
    ));
    assert!(matches!(*convert("MACRO(KC_H,KC_I)").unwrap(), KeyCode::Macro(_)));
    assert!(matches!(*convert("TG(nav)").unwrap(), KeyCode::ToggleLayer(_)));
    assert!(matches!(*convert("MO(nav)").unwrap(), KeyCode::MomentarilyEnableLayer(_)));
    assert!(matches!(*convert("AL(nav)").unwrap(), KeyCode::ActivateLayer(_)));
    assert!(matches!(*convert("LT(nav,KC_A,200)").unwrap(), KeyCode::HoldEnableLayerPress(_)));
    assert!(matches!(*convert("OSL(nav)").unwrap(), KeyCode::OneShotLayer(_)));
    assert!(matches!(*convert("WRAP(KC_LEFTSHIFT,KC_A)").unwrap(), KeyCode::Wrapped(_)));
    assert!(matches!(*convert("SPACECADET(KC_A,KC_LEFTSHIFT)").unwrap(), KeyCode::SpaceCadet(_)));
    assert_eq!(convert("KC_B").err().unwrap(), "Failed to convert key tree into a key.");
    assert_eq!(convert("NOPE(x)").err().unwrap(), "Failed to convert key tree into a key.");
}

#[test]
fn numbers_from_text() {
    assert_eq!(parse_u64("0"), Some(0));
    assert_eq!(parse_u64("200"), Some(200));
    assert_eq!(parse_u64("+5"), Some(5));
    assert_eq!(parse_u64("0012"), Some(12));
    assert_eq!(parse_u64("18446744073709551615"), Some(u64::MAX));
    assert_eq!(parse_u64("18446744073709551616"), None);
    assert_eq!(parse_u64("99999999999999999999999"), None);
    assert_eq!(parse_u64(""), None);
    assert_eq!(parse_u64("+"), None);
    assert_eq!(parse_u64("-1"), None);
    assert_eq!(parse_u64("1a"), None);
    assert_eq!(parse_u64(" 1"), None);
    assert_eq!(parse_u64("++1"), None);
}

#[test]
fn numbers_to_text() {
    assert_eq!(to_decimal(0), "0");
    assert_eq!(to_decimal(7), "7");
    assert_eq!(to_decimal(10), "10");
    assert_eq!(to_decimal(12345), "12345");
    assert_eq!(to_decimal(9_000_000_009), "9000000009");
}

#[test]
fn text_helpers() {
    assert!(same_text("TG", "TG"));
    assert!(!same_text("TG", "tg"));
    assert!(!same_text("TG", "TGX"));
    assert!(is_all("___", '_'));
    assert!(is_all("", '_'));
    assert!(!is_all("__x", '_'));
    assert_eq!(count_and_find("KC_A", '_'), (1, 2));
    assert_eq!(count_and_find("A_B_C", '_'), (2, 1));
    assert_eq!(count_and_find("ABC", '_'), (0, 3));
    assert_eq!(count_and_find("", '_'), (0, 0));
}

#[test]
fn names_that_a_tree_asks_for() {
    let mut names = vec!["KEY_Q".to_string()];
    symbol_names(&tree("WRAP(KC_LEFTSHIFT,MACRO(kc_h,KC_I,nav,A_B_C))"), &mut names);
    assert_eq!(names, vec!["KEY_Q", "KEY_LEFTSHIFT", "KEY_H", "KEY_I"]);
    let mut names = Vec::new();
    symbol_names(&tree("LT(nav,KC_A,200)"), &mut names);
    assert_eq!(names, vec!["KEY_A"]);
    symbol_names(&tree("KC_TRANS"), &mut names);
    assert_eq!(names, vec!["KEY_A", "KEY_TRANS"]);
}

#[test]
fn names_that_cells_ask_for() {
    let cells = vec![
        vec!["KC_A".to_string(), "".to_string(), "TG(nav)".to_string()],
        vec!["KC_B(".to_string(), "SPACECADET(KC_Z,KC_LEFTSHIFT)".to_string()],
    ];
    assert_eq!(wanted_symbols(&cells), vec!["KEY_A", "KEY_Z", "KEY_LEFTSHIFT"]);
}
