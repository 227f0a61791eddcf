use libspacecadet::documents::{
    document_symbols, fractions_are_short, layer_descriptions, matrix_cells,
};
use libspacecadet::input_event::{InputEvent, KeyState, SimpleKey};
use libspacecadet::keyboard_driver::KeyboardDriver;
use libspacecadet::keys::KeyCode;
use libspacecadet::layer::LayerCollection;
use libspacecadet::symbols::KeySymbols;
use libspacecadet::test_io_keyboard::{TestInputKeyboard, TestOutputKeyboard};
use libspacecadet::time::Instant;
use libspacecadet::virtual_keyboard_matrix::{
    KeyStateChange, MatrixUpdateResult, VirtualKeyboardMatrix,
};

const MATRIX: &str = r#"{
  "device": "/dev/input/event4",
  "matrix": [
    [ "KC_ESC", "KC_1" ],
    [ "KC_TAB", "______" ]
  ]
}"#;

const LAYERS: &str = r#"{
  "layer_order": [ "base", "nav" ],
  "base": {
    "enabled": true,
    "keys" : [
      [ "KC_A", "TG(nav)" ],
      [ "LT(nav,KC_TAB,200)", "_______" ]
    ]
  },
  "nav": {
    "enabled": false,
    "keys" : [
      [ "KC_ESC", "_______" ],
      [ "XXXXXXX", "KC_1" ]
    ]
  }
}"#;

fn symbols() -> KeySymbols {
    let mut s = KeySymbols::new();
    s.insert("KEY_ESC", 1);
    s.insert("KEY_1", 2);
    s.insert("KEY_TAB", 15);
    s.insert("KEY_A", 30);
    s
}

#[test]
fn cells_of_a_matrix_document() {
    assert_eq!(
        matrix_cells(MATRIX).unwrap(),
        vec![vec!["KC_ESC", "KC_1"], vec!["KC_TAB", "______"]]
    );
    assert_eq!(matrix_cells("{}").unwrap(), Vec::<Vec<String>>::new());
    assert_eq!(matrix_cells(r#"{"matrix": [[], ["a"]]}"#).unwrap(), vec![vec![], vec!["a"]]);
    assert_eq!(
        matrix_cells(r#"{"matrix": [["KC_A", 5]]}"#).err().unwrap(),
        "A key of the document is not a text."
    );
    assert!(matrix_cells("{ \"matrix\": [").is_err());
}

#[test]
fn layers_of_a_layer_document() {
    let layers = layer_descriptions(LAYERS).unwrap();
    assert_eq!(layers.len(), 2);
    assert_eq!(layers[0].name, "base");
    assert!(layers[0].enabled);
    assert_eq!(
        layers[0].keys,
        vec![vec!["KC_A", "TG(nav)"], vec!["LT(nav,KC_TAB,200)", "_______"]]
    );
    assert_eq!(layers[1].name, "nav");
    assert!(!layers[1].enabled);
    assert_eq!(layers[1].keys[1], vec!["XXXXXXX", "KC_1"]);
    assert_eq!(layer_descriptions("{}").unwrap().len(), 0);
    assert_eq!(
        layer_descriptions(r#"{"layer_order": ["base"], "base": {"keys": []}}"#).err().unwrap(),
        "A layer does not say whether it is enabled."
    );
    assert_eq!(
        layer_descriptions(r#"{"layer_order": [1]}"#).err().unwrap(),
        "The name of a layer is not a text."
    );
    assert!(layer_descriptions("nonsense").is_err());
}

#[test]
fn driver_from_documents() {
    let s = symbols();
    let mut fx = KeyboardDriver {
        input: TestInputKeyboard::new(),
        output: TestOutputKeyboard::new(),
        matrix: VirtualKeyboardMatrix::load(MATRIX, &s).unwrap(),
        layered_codes: Vec::new(),
        layer_attributes: LayerCollection::new(),
    };
    assert_eq!(fx.matrix.dim(), (2, 2));
    fx.load_layers(LAYERS, &s).unwrap();
    assert_eq!(fx.layered_codes.len(), 2);
    assert!(matches!(fx.layered_codes[1].codes[1][0], KeyCode::Opaque(_)));
    assert!(fx.verify().is_ok());
    assert!(fx.can_tick());

    // Escape sits at (0, 0), where the base layer has the key A.
    let press: InputEvent = KeyState(SimpleKey { code: 1 }, KeyStateChange::Pressed).into();
    fx.input.events.push(press);
    fx.clock_tick(Instant::from_nanos(0));
    assert_eq!(fx.output.events.len(), 1);
    assert_eq!(fx.output.events[0].event_code, 30);
}

#[test]
fn documents_with_faults_are_refused() {
    let s = symbols();
    assert_eq!(
        VirtualKeyboardMatrix::load(r#"{"matrix": [["KC_ESC", "KC_Q"]]}"#, &s).err().unwrap(),
        "Couldn't convert KC_Q into a code."
    );
    assert!(VirtualKeyboardMatrix::load("[", &s).is_err());
    let mut m = VirtualKeyboardMatrix::load(r#"{"matrix": [["KC_ESC"]]}"#, &s).unwrap();
    let press: InputEvent = KeyState(SimpleKey { code: 1 }, KeyStateChange::Pressed).into();
    assert!(matches!(
        m.update(press, Instant::from_nanos(0)),
        MatrixUpdateResult::StateChanged((0, 0), KeyStateChange::Pressed)
    ));
    let mut fx = KeyboardDriver {
        input: TestInputKeyboard::new(),
        output: TestOutputKeyboard::new(),
        matrix: m,
        layered_codes: Vec::new(),
        layer_attributes: LayerCollection::new(),
    };
    assert_eq!(
        fx.load_layers(
            r#"{"layer_order": ["base"], "base": {"enabled": true, "keys": [["NOPE"]]}}"#,
            &s
        )
        .err()
        .unwrap(),
        "Failed to convert key tree into a key."
    );
    assert_eq!(fx.layer_attributes.len(), 0);
}

#[test]
fn names_that_documents_ask_for() {
    assert_eq!(
        document_symbols(MATRIX, LAYERS),
        vec!["KEY_ESC", "KEY_1", "KEY_TAB", "KEY_A", "KEY_TAB", "KEY_ESC", "KEY_1"]
    );
    assert_eq!(document_symbols("[", "{}"), Vec::<String>::new());
}

fn document_with_fraction(digits: usize) -> String {
    format!("{{\"matrix\": [[\"KC_ESC\"]], \"weight\": 0.{}}}", "0".repeat(digits))
}

#[test]
fn fraction_of_many_digits_is_read() {
    let document = document_with_fraction(32767);
    assert!(fractions_are_short(&document));
    assert_eq!(matrix_cells(&document).unwrap(), vec![vec!["KC_ESC"]]);
    assert!(VirtualKeyboardMatrix::load(&document, &symbols()).is_ok());
}

#[test]
fn fraction_of_too_many_digits_is_refused() {
    let message = "A number of the document has too many digits behind the dot.";
    let document = document_with_fraction(32768);
    assert!(!fractions_are_short(&document));
    assert_eq!(matrix_cells(&document).err().unwrap(), message);
    assert_eq!(layer_descriptions(&document).err().unwrap(), message);
    assert_eq!(VirtualKeyboardMatrix::load(&document, &symbols()).err().unwrap(), message);
    assert_eq!(document_symbols(&document, &document), Vec::<String>::new());
    let mut fx = KeyboardDriver {
        input: TestInputKeyboard::new(),
        output: TestOutputKeyboard::new(),
        matrix: VirtualKeyboardMatrix::load(MATRIX, &symbols()).unwrap(),
        layered_codes: Vec::new(),
        layer_attributes: LayerCollection::new(),
    };
    assert_eq!(fx.load_layers(&document, &symbols()).err().unwrap(), message);
    assert_eq!(fx.layer_attributes.len(), 0);
}

#[test]
fn digits_count_only_behind_a_dot() {
    assert!(fractions_are_short(""));
    assert!(fractions_are_short(&"7".repeat(40000)));
    assert!(fractions_are_short(&format!("1.{}x{}", "1".repeat(32767), "2".repeat(32767))));
    assert!(!fractions_are_short(&format!("x.{}", "9".repeat(32768))));
    assert!(fractions_are_short(&format!(".{}.{}", "9".repeat(32767), "9".repeat(32767))));
}
