//! Layers, dual-role keys and macros for an ordinary keyboard.
//!
//! The library is the pipeline between a grabbed keyboard and a virtual
//! one. The *virtual matrix* turns the events of the device into changes of
//! state at a position, finds the keys that are held, and holds changes
//! back that a key has asked it to. The *layers* say which key a position
//! stands for at the moment. The *keys* act on a change of state: they send
//! events, switch layers, block positions, or put a buffer before the
//! output. The *driver* runs one tick of all this. Each part has a
//! mathematical model, and each function says in its contract what it does
//! to that model.

pub mod documents;
pub mod input_event;
pub mod input_keyboard;
pub mod key_syntax;
pub mod keyboard_driver;
pub mod keys;
pub mod layer;
pub mod loading;
pub mod matrix_collector;
pub mod output_keyboard;
pub mod parser;
pub mod readiness;
pub mod startup_checks;
pub mod symbols;
pub mod test_io_keyboard;
pub mod text;
pub mod time;
pub mod virtual_keyboard_matrix;

pub use crate::input_event::{InputEvent, KeyState, SimpleKey, TimeVal, EV_KEY};
pub use crate::input_keyboard::InputKeyboard;
pub use crate::key_syntax::convert_tokens_to_key;
pub use crate::keyboard_driver::KeyboardDriver;
pub use crate::keys::{
    ActivateLayerKey, HoldEnableLayerPressKey, KeyCode, KeyConstraint, KeyEventContext, MacroKey,
    MomentarilyEnableLayerKey, NormalKey, OneShotLayer, OpaqueKey, SpaceCadet, ToggleLayerKey,
    TransparentKey, WrappedKey,
};
pub use crate::layer::{KeyCodeMatrix, LayerAttributes, LayerCollection, ScheduledLayerEvent};
pub use crate::loading::LayerDescription;
pub use crate::matrix_collector::MatrixCollector;
pub use crate::output_keyboard::{
    BufferAfterSendingKeys, BufferSendKeysWhen, EventBuffer, OutputKeyboard,
};
pub use crate::parser::{ParsedKeyTree, RawToken, SimplifiedToken};
pub use crate::symbols::KeySymbols;
pub use crate::test_io_keyboard::{TestInputKeyboard, TestOutputKeyboard};
pub use crate::time::{Duration, Instant};
pub use crate::virtual_keyboard_matrix::{
    BlockedKeyStates, Index2D, KeyMatrix, KeyStateChange, KeyStats, MatrixUpdateResult,
    StateMatrix, VirtualKeyboardMatrix,
};
