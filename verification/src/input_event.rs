use crate::virtual_keyboard_matrix::KeyStateChange;
use vstd::prelude::*;
use vstd::std_specs::convert::FromSpecImpl;

verus! {

/// The kind that the kernel gives to events of keys and buttons.
pub const EV_KEY: u16 = 1;

/// A hardware key symbol, held as the code that the kernel knows it by.
#[derive(Clone, Copy, PartialEq, Eq, Structural, Hash, Debug)]
pub struct SimpleKey {
    pub code: u16,
}

/// Wall-clock stamp of an event: seconds and microseconds.
#[derive(Clone, Copy, PartialEq, Eq, Structural, Debug)]
pub struct TimeVal {
    pub tv_sec: i64,
    pub tv_usec: i64,
}

/// One event as it crosses the boundary of the library, on the way in from
/// the grabbed device or on the way out to the virtual one.
#[derive(Clone, Copy, PartialEq, Eq, Structural, Debug)]
pub struct InputEvent {
    /// When the event occurred.
    pub time: TimeVal,
    /// The kind of the event; `EV_KEY` for keys.
    pub event_type: u16,
    /// The code within the kind; for keys, the key's code.
    pub event_code: u16,
    /// For keys: 0 released, 1 pressed, 2 held.
    pub value: i32,
}

impl InputEvent {
    /// The key that the event speaks of, if it is a key event at all.
    pub open spec fn spec_key(&self) -> Option<SimpleKey> {
        if self.event_type == EV_KEY {
            Some(SimpleKey { code: self.event_code })
        } else {
            None
        }
    }

    /// True when `value` is one of the three key state changes.
    pub open spec fn spec_has_key_state(&self) -> bool {
        0 <= self.value <= 2
    }

    /// The state change that `value` stands for.
    pub open spec fn key_state(&self) -> KeyStateChange
        recommends
            self.spec_has_key_state(),
    {
        KeyStateChange::of_value(self.value as int)
    }

    /// The event that reports `change` of `key`, stamped with time zero.
    pub open spec fn of_key(key: SimpleKey, change: KeyStateChange) -> InputEvent {
        InputEvent {
            time: TimeVal { tv_sec: 0, tv_usec: 0 },
            event_type: EV_KEY,
            event_code: key.code,
            value: change.value() as i32,
        }
    }

    /// The key that the event speaks of, if it is a key event at all.
    #[verifier::when_used_as_spec(spec_key)]
    pub fn key(&self) -> (k: Option<SimpleKey>)
        ensures
            k == self.spec_key(),
    {
        if self.event_type == EV_KEY {
            Some(SimpleKey { code: self.event_code })
        } else {
            None
        }
    }

    /// Tells whether `value` is one of the three key state changes.
    #[verifier::when_used_as_spec(spec_has_key_state)]
    pub fn has_key_state(&self) -> (b: bool)
        ensures
            b == self.spec_has_key_state(),
    {
        0 <= self.value && self.value <= 2
    }
}

/// Shorthand for a key together with a change of its state.
#[derive(Clone, Copy, Debug)]
pub struct KeyState(pub SimpleKey, pub KeyStateChange);

impl From<KeyState> for InputEvent {
    fn from(k: KeyState) -> (e: InputEvent) {
        InputEvent {
            time: TimeVal { tv_sec: 0, tv_usec: 0 },
            event_type: EV_KEY,
            event_code: k.0.code,
            value: k.1.as_value(),
        }
    }
}

impl FromSpecImpl<KeyState> for InputEvent {
    open spec fn obeys_from_spec() -> bool {
        true
    }

    open spec fn from_spec(k: KeyState) -> InputEvent {
        InputEvent::of_key(k.0, k.1)
    }
}

} // verus!
