use crate::input_event::{InputEvent, KeyState, SimpleKey};
use crate::layer::{LayerCollection, LayersState, ScheduledLayerEvent};
use crate::output_keyboard::{
    all_key_states, BufferSendKeysWhen, BufferState, EventBuffer, OutputKeyboard, OutputState,
};
use crate::time::{Duration, Instant};
use crate::virtual_keyboard_matrix::{
    BlockedKeyStates, Index2D, KeyStateChange, MatrixState, VirtualKeyboardMatrix,
};
use vstd::prelude::*;

verus! {

/// The context/state surrounding a key event (e.g. press): the cell that
/// the event occurred at, and the time of the tick.
#[derive(Clone, Copy, Debug)]
pub struct KeyEventContext {
    pub location: Index2D,
    pub now: Instant,
}

/// All that a key can act on, as one mathematical value.
#[verifier::ext_equal]
pub struct World {
    /// The output keyboard.
    pub output: OutputState,
    /// The virtual matrix.
    pub matrix: MatrixState,
    /// The layers.
    pub layers: LayersState,
}

/// The world that the three parts make up.
pub open spec fn world_of<O: OutputKeyboard>(
    output: O,
    matrix: VirtualKeyboardMatrix,
    layers: LayerCollection,
) -> World {
    World { output: output.model(), matrix: matrix@, layers: layers@ }
}

impl World {
    /// The three parts are well-formed, and `ctx` speaks of a cell of the matrix.
    pub open spec fn wf(self, ctx: KeyEventContext) -> bool {
        &&& self.output.wf()
        &&& self.matrix.wf()
        &&& self.layers.wf()
        &&& self.layers.callbacks_known()
        &&& self.matrix.in_range(ctx.location)
    }

    /// The world after `e` was sent to the output keyboard.
    pub open spec fn send(self, e: InputEvent) -> World {
        World { output: self.output.send(e), ..self }
    }

    /// The world after `key` was pressed and released again on the output keyboard.
    pub open spec fn tap(self, key: SimpleKey) -> World {
        self.send(InputEvent::of_key(key, KeyStateChange::Pressed)).send(
            InputEvent::of_key(key, KeyStateChange::Released),
        )
    }

    /// The world in which releases and holds of the cell at `idx` are held back.
    pub open spec fn block_release_and_hold(self, idx: Index2D) -> World {
        World { matrix: self.matrix.set_block(BlockedKeyStates::release_and_hold(), idx), ..self }
    }

    /// The world with the layer called `name` enabled (`val`) or disabled.
    pub open spec fn set_layer(self, name: Seq<char>, val: bool) -> World {
        World { layers: self.layers.set(name, val), ..self }
    }

    /// True when `next` can have come from `self` by what keys do: the same
    /// layers under the same names, the same matrix but for blocks, and an
    /// output keyboard that has sent `sends` events at most.
    pub open spec fn leads_to(self, next: World, ctx: KeyEventContext, sends: nat) -> bool {
        &&& next.wf(ctx)
        &&& next.layers.name_to_idx == self.layers.name_to_idx
        &&& next.layers.attributes.len() == self.layers.attributes.len()
        &&& next.matrix.dim == self.matrix.dim
        &&& next.matrix.keys == self.matrix.keys
        &&& next.matrix.hold_threshold == self.matrix.hold_threshold
        &&& next.output.load() <= self.output.load() + sends
        &&& self.output.emitted.is_prefix_of(next.output.emitted)
    }

    /// Where `self` leads to `mid` and `mid` leads on to `last`, `self`
    /// leads to `last`, and the events sent add up.
    pub proof fn lemma_leads_on(
        self,
        mid: World,
        last: World,
        ctx: KeyEventContext,
        first: nat,
        second: nat,
    )
        requires
            self.leads_to(mid, ctx, first),
            mid.leads_to(last, ctx, second),
        ensures
            self.leads_to(last, ctx, first + second),
    {
    }

    /// The event of a key and a change of its state carries that change,
    /// and so one of the three key state changes.
    pub proof fn lemma_key_event(key: SimpleKey, state: KeyStateChange)
        ensures
            InputEvent::of_key(key, state).spec_has_key_state(),
            InputEvent::of_key(key, state).key_state() == state,
            InputEvent::of_key(key, state).value == state.value(),
            InputEvent::of_key(key, state).spec_key() == Some(key),
    {
    }

    /// Sending the event of a key lets only events leave that carry key
    /// states, whatever the counts are.
    pub proof fn lemma_send_key_states(self, key: SimpleKey, state: KeyStateChange)
        requires
            self.output.carries_key_states(),
        ensures
            self.send(InputEvent::of_key(key, state)).output.carries_key_states(),
            self.output.emitted.is_prefix_of(
                self.send(InputEvent::of_key(key, state)).output.emitted,
            ),
    {
        World::lemma_key_event(key, state);
        self.output.lemma_send_key_states(InputEvent::of_key(key, state), false);
    }

    /// A tap lets only events leave that carry key states, whatever the
    /// counts are.
    pub proof fn lemma_tap_key_states(self, key: SimpleKey)
        requires
            self.output.carries_key_states(),
        ensures
            self.tap(key).output.carries_key_states(),
            self.output.emitted.is_prefix_of(self.tap(key).output.emitted),
    {
        self.lemma_send_key_states(key, KeyStateChange::Pressed);
        self.send(InputEvent::of_key(key, KeyStateChange::Pressed)).lemma_send_key_states(
            key,
            KeyStateChange::Released,
        );
    }

    /// One `send` of a key event leads to a world that has sent one event.
    pub proof fn lemma_send(self, ctx: KeyEventContext, key: SimpleKey, state: KeyStateChange)
        requires
            self.wf(ctx),
            self.output.load() < u32::MAX,
        ensures
            self.leads_to(self.send(InputEvent::of_key(key, state)), ctx, 1),
    {
        self.output.lemma_send_override(InputEvent::of_key(key, state), false);
    }

    /// A tap leads to a world that has sent two events.
    pub proof fn lemma_tap(self, ctx: KeyEventContext, key: SimpleKey)
        requires
            self.wf(ctx),
            self.output.load() + 2 <= u32::MAX,
        ensures
            self.leads_to(self.tap(key), ctx, 2),
    {
        let mid = self.send(InputEvent::of_key(key, KeyStateChange::Pressed));
        self.lemma_send(ctx, key, KeyStateChange::Pressed);
        mid.lemma_send(ctx, key, KeyStateChange::Released);
    }

    /// Setting a known layer leads to a world that has sent nothing.
    pub proof fn lemma_set_layer(self, ctx: KeyEventContext, name: Seq<char>, val: bool)
        requires
            self.wf(ctx),
            self.layers.contains(name),
        ensures
            self.leads_to(self.set_layer(name, val), ctx, 0),
            self.leads_to(World { layers: self.layers.toggle(name), ..self }, ctx, 0),
    {
    }

    /// A block on the cell of `ctx` leads to a world that has sent nothing.
    pub proof fn lemma_block(self, ctx: KeyEventContext)
        requires
            self.wf(ctx),
        ensures
            self.leads_to(self.block_release_and_hold(ctx.location), ctx, 0),
    {
    }
}

/// Contextual constraints that ensure a key's behavior acts as expected.
pub enum KeyConstraint {
    /// The key on the other layer must be transparent.
    KeyOnOtherLayerIsTransparent(String),
    /// A layer with the given name must exist.
    LayerExists(String),
}

/// A key that's transparent; a pass-through to the key below it in the layer hierarchy.
pub struct TransparentKey {}

impl TransparentKey {
    /// Check if the key is transparent (i.e. a pass-through to the key in the next lower layer).
    pub fn is_transparent(&self) -> (r: bool)
        ensures
            r,
    {
        true
    }
}

/// A key that's the opposite of transparent; a no-op key that doesn't act on any events.
pub struct OpaqueKey;

/// A key that passes each change of its state on as a change of `value`.
#[derive(Clone, Copy)]
pub struct NormalKey {
    pub value: SimpleKey,
}

impl NormalKey {
    /// The event that the key sends for `state`.
    pub open spec fn event(self, state: KeyStateChange) -> InputEvent {
        InputEvent::of_key(self.value, state)
    }

    /// The key and the world after the key has handled `state`: one event
    /// was sent, which reports `state` of `value`.
    pub open spec fn handled(self, w: World, ctx: KeyEventContext, state: KeyStateChange) -> (
        NormalKey,
        World,
    ) {
        (self, w.send(self.event(state)))
    }

    /// A hardware key sends one event for each change of its state, which
    /// is a key event of the key's code whose value is that of the change,
    /// 0, 1 or 2; the key, the matrix and the layers stay as they are. With
    /// a buffer that holds nothing back, that event is the one event
    /// that leaves.
    pub proof fn lemma_sends_one_event(self, w: World, ctx: KeyEventContext, state: KeyStateChange)
        ensures
            self.handled(w, ctx, state).0 == self,
            self.handled(w, ctx, state).1.matrix == w.matrix,
            self.handled(w, ctx, state).1.layers == w.layers,
            self.handled(w, ctx, state).1.output == w.output.send(self.event(state)),
            self.event(state).spec_key() == Some(self.value),
            self.event(state).value == state.value(),
            self.event(state).spec_has_key_state(),
            w.output.buffer.send_keys_policy == BufferSendKeysWhen::Immediately
                ==> self.handled(w, ctx, state).1.output.emitted == w.output.emitted.push(
                self.event(state),
            ),
    {
        let e = self.event(state);
        assert(w.output.send_all(seq![e], 0) == w.output);
        assert(w.output.send_all(seq![e], 1) == w.output.send_unbuffered(e));
    }

    /// React to a `KeyStateChange` event (e.g. the key was pressed).
    pub fn handle_event<O: OutputKeyboard>(
        &mut self,
        output: &mut O,
        matrix: &mut VirtualKeyboardMatrix,
        layers: &mut LayerCollection,
        ctx: &KeyEventContext,
        state: KeyStateChange,
    )
        requires
            old(matrix).wf(),
            world_of(*old(output), *old(matrix), *old(layers)).wf(*ctx),
            old(output).model().load() < u32::MAX,
        ensures
            final(matrix).wf(),
            (*final(self), world_of(*final(output), *final(matrix), *final(layers))) == old(
                self,
            ).handled(world_of(*old(output), *old(matrix), *old(layers)), *ctx, state),
    {
        output.send(InputEvent::from(KeyState(self.value, state)));
    }
}

/// A key that's a collection of other simple keys that are quickly pressed sequentially.
pub struct MacroKey {
    /// When to play the macro (e.g. when the key is pressed or released).
    pub play_macro_when: KeyStateChange,
    /// The collection of keys to play.
    pub keys: Vec<NormalKey>,
}

impl MacroKey {
    /// The world after the first `n` keys of the macro were tapped one after another.
    pub open spec fn played(self, w: World, n: nat) -> World
        decreases n,
    {
        if n == 0 {
            w
        } else {
            self.played(w, (n - 1) as nat).tap(self.keys@[n - 1].value)
        }
    }

    /// The key and the world after the key has handled `state`: the macro
    /// was played if `state` is what it waits for.
    pub open spec fn handled(self, w: World, ctx: KeyEventContext, state: KeyStateChange) -> (
        MacroKey,
        World,
    ) {
        if state == self.play_macro_when {
            (self, self.played(w, self.keys@.len()))
        } else {
            (self, w)
        }
    }

    /// The number of events that the key may send for one change of its state.
    pub open spec fn demand(self) -> nat {
        2 * self.keys@.len()
    }

    /// Playing keys lets only events leave that carry key states, whatever
    /// the counts are.
    pub proof fn lemma_played_key_states(self, w: World, n: nat)
        requires
            w.output.carries_key_states(),
        ensures
            self.played(w, n).output.carries_key_states(),
            w.output.emitted.is_prefix_of(self.played(w, n).output.emitted),
        decreases n,
    {
        if n > 0 {
            self.lemma_played_key_states(w, (n - 1) as nat);
            self.played(w, (n - 1) as nat).lemma_tap_key_states(self.keys@[n - 1].value);
        }
    }

    /// Playing the first `n` keys leads to a world that has sent `2 * n` events.
    pub proof fn lemma_played(self, w: World, ctx: KeyEventContext, n: nat)
        requires
            w.wf(ctx),
            n <= self.keys@.len(),
            w.output.load() + 2 * n <= u32::MAX,
        ensures
            w.leads_to(self.played(w, n), ctx, 2 * n),
        decreases n,
    {
        if n > 0 {
            self.lemma_played(w, ctx, (n - 1) as nat);
            self.played(w, (n - 1) as nat).lemma_tap(ctx, self.keys@[n - 1].value);
        }
    }

    /// React to a `KeyStateChange` event (e.g. the key was pressed).
    pub fn handle_event<O: OutputKeyboard>(
        &mut self,
        output: &mut O,
        matrix: &mut VirtualKeyboardMatrix,
        layers: &mut LayerCollection,
        ctx: &KeyEventContext,
        state: KeyStateChange,
    )
        requires
            old(matrix).wf(),
            world_of(*old(output), *old(matrix), *old(layers)).wf(*ctx),
            state == old(self).play_macro_when ==> old(output).model().load() + old(self).demand()
                <= u32::MAX,
        ensures
            final(matrix).wf(),
            (*final(self), world_of(*final(output), *final(matrix), *final(layers))) == old(
                self,
            ).handled(world_of(*old(output), *old(matrix), *old(layers)), *ctx, state),
    {
        if state == self.play_macro_when {
            let ghost start = world_of(*output, *matrix, *layers);
            let mut i: usize = 0;
            while i < self.keys.len()
                invariant
                    i <= self.keys@.len(),
                    *self == *old(self),
                    matrix.wf(),
                    start.wf(*ctx),
                    start.output.load() + 2 * self.keys@.len() <= u32::MAX,
                    world_of(*output, *matrix, *layers) == self.played(start, i as nat),
                decreases self.keys@.len() - i,
            {
                proof {
                    self.lemma_played(start, *ctx, i as nat);
                    self.played(start, i as nat).lemma_send(
                        *ctx,
                        self.keys@[i as int].value,
                        KeyStateChange::Pressed,
                    );
                }
                let mut key: NormalKey = self.keys[i];
                key.handle_event(output, matrix, layers, ctx, KeyStateChange::Pressed);
                key.handle_event(output, matrix, layers, ctx, KeyStateChange::Released);
                i += 1;
            }
        }
    }
}

/// A key that toggles a layer on or off.
pub struct ToggleLayerKey {
    /// Name of the layer to toggle.
    pub layer_name: String,
}

impl ToggleLayerKey {
    /// The key and the world after the key has handled `state`: a press
    /// toggles the layer and holds back the release and the holds that
    /// follow at this cell, lest they reach the layer that is now active.
    pub open spec fn handled(self, w: World, ctx: KeyEventContext, state: KeyStateChange) -> (
        ToggleLayerKey,
        World,
    ) {
        if state == KeyStateChange::Pressed {
            (
                self,
                (World { layers: w.layers.toggle(self.layer_name@), ..w }).block_release_and_hold(
                    ctx.location,
                ),
            )
        } else {
            (self, w)
        }
    }

    /// React to a `KeyStateChange` event (e.g. the key was pressed).
    pub fn handle_event<O: OutputKeyboard>(
        &mut self,
        output: &mut O,
        matrix: &mut VirtualKeyboardMatrix,
        layers: &mut LayerCollection,
        ctx: &KeyEventContext,
        state: KeyStateChange,
    )
        requires
            old(matrix).wf(),
            world_of(*old(output), *old(matrix), *old(layers)).wf(*ctx),
            old(layers)@.contains(old(self).layer_name@),
        ensures
            final(matrix).wf(),
            (*final(self), world_of(*final(output), *final(matrix), *final(layers))) == old(
                self,
            ).handled(world_of(*old(output), *old(matrix), *old(layers)), *ctx, state),
    {
        if state == KeyStateChange::Pressed {
            // Toggle the layer, and mask the RELEASED event that'll be processed soon.
            layers.toggle(self.layer_name.as_str());
            matrix.set_block(BlockedKeyStates::new_block_release_and_hold(), ctx.location);
        }
    }

    /// Get any constraints the key may have.
    pub fn get_constraints(&self) -> (rules: Vec<KeyConstraint>)
        ensures
            rules@ == seq![KeyConstraint::LayerExists(self.layer_name)],
    {
        let mut rules: Vec<KeyConstraint> = Vec::new();
        rules.push(KeyConstraint::LayerExists(self.layer_name.clone()));
        assert(rules@ =~= seq![KeyConstraint::LayerExists(self.layer_name)]);
        rules
    }
}

/// A key that enables a layer when pressed, then disable it when released.
pub struct MomentarilyEnableLayerKey {
    /// Name of the layer to enable/disable.
    pub layer_name: String,
}

impl MomentarilyEnableLayerKey {
    /// The key and the world after the key has handled `state`: a press
    /// enables the layer, a release disables it, a hold does nothing.
    pub open spec fn handled(self, w: World, ctx: KeyEventContext, state: KeyStateChange) -> (
        MomentarilyEnableLayerKey,
        World,
    ) {
        match state {
            KeyStateChange::Held => (self, w),
            KeyStateChange::Released => (self, w.set_layer(self.layer_name@, false)),
            KeyStateChange::Pressed => (self, w.set_layer(self.layer_name@, true)),
        }
    }

    /// React to a `KeyStateChange` event (e.g. the key was pressed).
    pub fn handle_event<O: OutputKeyboard>(
        &mut self,
        output: &mut O,
        matrix: &mut VirtualKeyboardMatrix,
        layers: &mut LayerCollection,
        ctx: &KeyEventContext,
        state: KeyStateChange,
    )
        requires
            old(matrix).wf(),
            world_of(*old(output), *old(matrix), *old(layers)).wf(*ctx),
            old(layers)@.contains(old(self).layer_name@),
        ensures
            final(matrix).wf(),
            (*final(self), world_of(*final(output), *final(matrix), *final(layers))) == old(
                self,
            ).handled(world_of(*old(output), *old(matrix), *old(layers)), *ctx, state),
    {
        match state {
            KeyStateChange::Held => {},
            KeyStateChange::Released => {
                layers.set(self.layer_name.as_str(), false);
            },
            KeyStateChange::Pressed => {
                layers.set(self.layer_name.as_str(), true);
            },
        }
    }

    /// Get any constraints the key may have.
    pub fn get_constraints(&self) -> (rules: Vec<KeyConstraint>)
        ensures
            rules@ == seq![
                KeyConstraint::LayerExists(self.layer_name),
                KeyConstraint::KeyOnOtherLayerIsTransparent(self.layer_name),
            ],
    {
        let mut rules: Vec<KeyConstraint> = Vec::new();
        rules.push(KeyConstraint::LayerExists(self.layer_name.clone()));
        rules.push(KeyConstraint::KeyOnOtherLayerIsTransparent(self.layer_name.clone()));
        assert(rules@ =~= seq![
            KeyConstraint::LayerExists(self.layer_name),
            KeyConstraint::KeyOnOtherLayerIsTransparent(self.layer_name),
        ]);
        rules
    }
}

/// A key than enables a layer.
pub struct ActivateLayerKey {
    /// Name of the layer to enable.
    pub layer_name: String,
}

impl ActivateLayerKey {
    /// The key and the world after the key has handled `state`: a press
    /// enables the layer and holds back the release and the holds that
    /// follow at this cell.
    pub open spec fn handled(self, w: World, ctx: KeyEventContext, state: KeyStateChange) -> (
        ActivateLayerKey,
        World,
    ) {
        if state == KeyStateChange::Pressed {
            (self, w.set_layer(self.layer_name@, true).block_release_and_hold(ctx.location))
        } else {
            (self, w)
        }
    }

    /// React to a `KeyStateChange` event (e.g. the key was pressed).
    pub fn handle_event<O: OutputKeyboard>(
        &mut self,
        output: &mut O,
        matrix: &mut VirtualKeyboardMatrix,
        layers: &mut LayerCollection,
        ctx: &KeyEventContext,
        state: KeyStateChange,
    )
        requires
            old(matrix).wf(),
            world_of(*old(output), *old(matrix), *old(layers)).wf(*ctx),
            old(layers)@.contains(old(self).layer_name@),
        ensures
            final(matrix).wf(),
            (*final(self), world_of(*final(output), *final(matrix), *final(layers))) == old(
                self,
            ).handled(world_of(*old(output), *old(matrix), *old(layers)), *ctx, state),
    {
        match state {
            KeyStateChange::Pressed => {
                // Enable the layer.
                layers.set(self.layer_name.as_str(), true);

                // This was a PRESSED, but a RELEASED event will soon follow.
                // We don't want that event to hit the layer we just switched to.
                // Temporarily block the release + hold events for this layer position.
                matrix.set_block(BlockedKeyStates::new_block_release_and_hold(), ctx.location);
            },
            _ => {},
        }
    }

    /// Get any constraints the key may have.
    pub fn get_constraints(&self) -> (rules: Vec<KeyConstraint>)
        ensures
            rules@ == seq![KeyConstraint::LayerExists(self.layer_name)],
    {
        let mut rules: Vec<KeyConstraint> = Vec::new();
        rules.push(KeyConstraint::LayerExists(self.layer_name.clone()));
        assert(rules@ =~= seq![KeyConstraint::LayerExists(self.layer_name)]);
        rules
    }
}

/// A key than enables a layer when held, but emits a simple key when pressed + released quickly.
pub struct HoldEnableLayerPressKey {
    pub layer_name: String,
    pub key: NormalKey,
    pub pressed_at: Instant,
    pub hold_threshold: Duration,
}

impl HoldEnableLayerPressKey {
    /// True when more than the threshold lies between the last press and `now`.
    pub open spec fn held_long_enough(self, now: Instant) -> bool {
        now.since(self.pressed_at) > self.hold_threshold.nanos
    }

    /// The key and the world after the key has handled `state`. A press
    /// is remembered with its time. A hold that has lasted long enough
    /// enables the layer and holds back the release and the holds that follow
    /// at this cell. A release after a time that long enables the layer; a
    /// release before it taps `key`.
    pub open spec fn handled(self, w: World, ctx: KeyEventContext, state: KeyStateChange) -> (
        HoldEnableLayerPressKey,
        World,
    ) {
        match state {
            KeyStateChange::Held => {
                if self.held_long_enough(ctx.now) {
                    (
                        self,
                        w.set_layer(self.layer_name@, true).block_release_and_hold(ctx.location),
                    )
                } else {
                    (self, w)
                }
            },
            KeyStateChange::Pressed => (
                HoldEnableLayerPressKey { pressed_at: ctx.now, ..self },
                w,
            ),
            KeyStateChange::Released => {
                if self.held_long_enough(ctx.now) {
                    (self, w.set_layer(self.layer_name@, true))
                } else {
                    (self, w.tap(self.key.value))
                }
            },
        }
    }

    /// Create a new key by specifying the layer to change on hold and the key to emit when
    /// pressed + released. Until its first press the key counts as pressed at
    /// the origin of the clock.
    pub fn new(layer_name: &str, key: NormalKey, hold_threshold: Duration) -> (k:
        HoldEnableLayerPressKey)
        ensures
            k.layer_name@ == layer_name@,
            k.key == key,
            k.pressed_at == (Instant { nanos: 0 }),
            k.hold_threshold == hold_threshold,
    {
        HoldEnableLayerPressKey {
            layer_name: layer_name.to_owned(),
            key,
            pressed_at: Instant::from_nanos(0),
            hold_threshold,
        }
    }

    /// Tells whether more than the threshold lies between the last press and `now`.
    fn is_held_long_enough(&self, now: Instant) -> (r: bool)
        ensures
            r == self.held_long_enough(now),
    {
        let delta = now.duration_since(self.pressed_at);
        delta.nanos > self.hold_threshold.nanos
    }

    /// React to a `KeyStateChange` event (e.g. the key was pressed).
    pub fn handle_event<O: OutputKeyboard>(
        &mut self,
        output: &mut O,
        matrix: &mut VirtualKeyboardMatrix,
        layers: &mut LayerCollection,
        ctx: &KeyEventContext,
        state: KeyStateChange,
    )
        requires
            old(matrix).wf(),
            world_of(*old(output), *old(matrix), *old(layers)).wf(*ctx),
            old(layers)@.contains(old(self).layer_name@),
            state == KeyStateChange::Released && !old(self).held_long_enough(ctx.now) ==> old(
                output,
            ).model().load() + 2 <= u32::MAX,
        ensures
            final(matrix).wf(),
            (*final(self), world_of(*final(output), *final(matrix), *final(layers))) == old(
                self,
            ).handled(world_of(*old(output), *old(matrix), *old(layers)), *ctx, state),
    {
        match state {
            KeyStateChange::Held => {
                // The keyboard driver determined the key was held - but was it held long enough?
                // If so, enable the layer.
                // Then block any future holds and the next release on the new layer. This helps
                // prevent phantom "releases" after a key switches to a different layer but
                // hasn't been released yet.
                if self.is_held_long_enough(ctx.now) {
                    layers.set(self.layer_name.as_str(), true);
                    matrix.set_block(BlockedKeyStates::new_block_release_and_hold(), ctx.location);
                }
            },
            KeyStateChange::Pressed => {
                self.pressed_at = ctx.now;
            },
            KeyStateChange::Released => {
                if self.is_held_long_enough(ctx.now) {
                    layers.set(self.layer_name.as_str(), true);
                } else {
                    proof {
                        world_of(*output, *matrix, *layers).lemma_send(
                            *ctx,
                            self.key.value,
                            KeyStateChange::Pressed,
                        );
                    }
                    let mut key: NormalKey = self.key;
                    key.handle_event(output, matrix, layers, ctx, KeyStateChange::Pressed);
                    key.handle_event(output, matrix, layers, ctx, KeyStateChange::Released);
                }
            },
        }
    }

    /// Get any constraints the key may have.
    pub fn get_constraints(&self) -> (rules: Vec<KeyConstraint>)
        ensures
            rules@ == seq![KeyConstraint::LayerExists(self.layer_name)],
    {
        let mut rules: Vec<KeyConstraint> = Vec::new();
        rules.push(KeyConstraint::LayerExists(self.layer_name.clone()));
        assert(rules@ =~= seq![KeyConstraint::LayerExists(self.layer_name)]);
        rules
    }
}

/// A key than enables a layer when pressed and disables the layer after the next key is pressed + released.
pub struct OneShotLayer {
    pub layer_name: String,
}

impl OneShotLayer {
    /// The event that the key schedules when the output keyboard has
    /// counted `released` releases: the next release disables the layer.
    pub open spec fn scheduled(self, released: u32) -> ScheduledLayerEvent {
        ScheduledLayerEvent {
            layer_name: self.layer_name,
            event_type: KeyStateChange::Released,
            event_count: (released + 1) as u32,
            enable_layer_at_event: false,
        }
    }

    /// The key and the world after the key has handled `state`: a press
    /// enables the layer, schedules its end at the next release that
    /// leaves the output keyboard, and holds back the release and the holds
    /// that follow at this cell. A hold and a release do nothing.
    pub open spec fn handled(self, w: World, ctx: KeyEventContext, state: KeyStateChange) -> (
        OneShotLayer,
        World,
    ) {
        if state == KeyStateChange::Pressed {
            let enabled = w.set_layer(self.layer_name@, true);
            (
                self,
                (World {
                    layers: enabled.layers.schedule(self.scheduled(w.output.stats.released)),
                    ..enabled
                }).block_release_and_hold(ctx.location),
            )
        } else {
            (self, w)
        }
    }

    /// React to a `KeyStateChange` event (e.g. the key was pressed).
    pub fn handle_event<O: OutputKeyboard>(
        &mut self,
        output: &mut O,
        matrix: &mut VirtualKeyboardMatrix,
        layers: &mut LayerCollection,
        ctx: &KeyEventContext,
        state: KeyStateChange,
    )
        requires
            old(matrix).wf(),
            world_of(*old(output), *old(matrix), *old(layers)).wf(*ctx),
            old(layers)@.contains(old(self).layer_name@),
            state == KeyStateChange::Pressed ==> old(output).model().stats.released < u32::MAX,
        ensures
            final(matrix).wf(),
            (*final(self), world_of(*final(output), *final(matrix), *final(layers))) == old(
                self,
            ).handled(world_of(*old(output), *old(matrix), *old(layers)), *ctx, state),
    {
        match state {
            KeyStateChange::Held => {},
            KeyStateChange::Pressed => {
                // Enable the target layer.
                layers.set(self.layer_name.as_str(), true);

                // Inject a counter based call-back that disables the layer
                // after another key has been released (this position doesn't count).
                let t = KeyStateChange::Released;
                let e = ScheduledLayerEvent {
                    layer_name: self.layer_name.clone(),
                    event_type: t,
                    event_count: output.get_stats().get(t) + 1,
                    enable_layer_at_event: false,
                };
                layers.schedule_event_count_callback(e);

                // Register a block that temporarily prevents any holds or releases
                // for being registered for this key. If this block was being run under
                // a RELEASED event, then this wouldn't be necessary.
                //
                // ... but based on one man's opinion, the ergonomics are better if the layer
                // switches on PRESS (especially when typing quickly).
                matrix.set_block(BlockedKeyStates::new_block_release_and_hold(), ctx.location);
            },
            KeyStateChange::Released => {},
        }
    }

    /// Get any constraints the key may have.
    pub fn get_constraints(&self) -> (rules: Vec<KeyConstraint>)
        ensures
            rules@ == seq![KeyConstraint::LayerExists(self.layer_name)],
    {
        let mut rules: Vec<KeyConstraint> = Vec::new();
        rules.push(KeyConstraint::LayerExists(self.layer_name.clone()));
        assert(rules@ =~= seq![KeyConstraint::LayerExists(self.layer_name)]);
        rules
    }
}


/// A key wrapped with another key (e.g. SHIFT). The wrap key is pressed,
/// the `KeyCode` is pressed and released, then wrap is released.
pub struct WrappedKey {
    pub inside: Box<KeyCode>,
    pub outside: NormalKey,
}

/// A key that acts like a modifier when used with another key,
/// but acts like a simple key when tapped.
///
/// The classic example is `SHIFT` when the cord contains another key, but `(` when tapped.
pub struct SpaceCadet {
    pub when_tapped: Box<KeyCode>,
    pub when_held: NormalKey,
    pub number_of_keys_pressed: u32,
}

/// The family of keys: what a cell of a layer can hold.
pub enum KeyCode {
    Transparent(TransparentKey),
    Opaque(OpaqueKey),
    Normal(NormalKey),
    Macro(MacroKey),
    ToggleLayer(ToggleLayerKey),
    MomentarilyEnableLayer(MomentarilyEnableLayerKey),
    ActivateLayer(ActivateLayerKey),
    HoldEnableLayerPress(HoldEnableLayerPressKey),
    OneShotLayer(OneShotLayer),
    Wrapped(WrappedKey),
    SpaceCadet(SpaceCadet),
}

impl WrappedKey {
    /// The key and the world after the key has handled `state`, where the
    /// key inside is nested `fuel` deep. A press goes to the outer key first
    /// and then inside, a release inside first and then to the outer key,
    /// and a hold inside only.
    pub open spec fn handled_within(
        self,
        fuel: nat,
        w: World,
        ctx: KeyEventContext,
        state: KeyStateChange,
    ) -> (WrappedKey, World)
        decreases 2 * fuel + 2,
    {
        match state {
            KeyStateChange::Pressed => {
                let (inside, next) = self.inside.handled_within(
                    fuel,
                    w.send(self.outside.event(state)),
                    ctx,
                    state,
                );
                (WrappedKey { inside: Box::new(inside), ..self }, next)
            },
            KeyStateChange::Held => {
                let (inside, next) = self.inside.handled_within(fuel, w, ctx, state);
                (WrappedKey { inside: Box::new(inside), ..self }, next)
            },
            KeyStateChange::Released => {
                let (inside, next) = self.inside.handled_within(fuel, w, ctx, state);
                (WrappedKey { inside: Box::new(inside), ..self }, next.send(self.outside.event(state)))
            },
        }
    }

    /// The key and the world after the key has handled `state`.
    pub open spec fn handled(self, w: World, ctx: KeyEventContext, state: KeyStateChange) -> (
        WrappedKey,
        World,
    ) {
        self.handled_within(self.inside.depth(), w, ctx, state)
    }

    /// React to a `KeyStateChange` event (e.g. the key was pressed).
    pub fn handle_event<O: OutputKeyboard>(
        &mut self,
        output: &mut O,
        matrix: &mut VirtualKeyboardMatrix,
        layers: &mut LayerCollection,
        ctx: &KeyEventContext,
        state: KeyStateChange,
    )
        requires
            old(matrix).wf(),
            KeyCode::Wrapped(*old(self)).can_handle(
                world_of(*old(output), *old(matrix), *old(layers)),
                *ctx,
                state,
            ),
        ensures
            final(matrix).wf(),
            (*final(self), world_of(*final(output), *final(matrix), *final(layers))) == old(
                self,
            ).handled(world_of(*old(output), *old(matrix), *old(layers)), *ctx, state),
        decreases 2 * old(self).inside.depth() + 2,
    {
        let ghost start = world_of(*output, *matrix, *layers);
        match state {
            KeyStateChange::Pressed => {
                proof {
                    start.lemma_send(*ctx, self.outside.value, state);
                    self.inside.lemma_layers_known(
                        start.layers,
                        start.send(self.outside.event(state)).layers,
                    );
                }
                let mut outside: NormalKey = self.outside;
                outside.handle_event(output, matrix, layers, ctx, state);
                self.inside.handle_event(output, matrix, layers, ctx, state);
            },
            KeyStateChange::Held => {
                self.inside.handle_event(output, matrix, layers, ctx, state);
            },
            KeyStateChange::Released => {
                proof {
                    self.inside.lemma_handled(start, *ctx, state);
                }
                self.inside.handle_event(output, matrix, layers, ctx, state);
                let mut outside: NormalKey = self.outside;
                outside.handle_event(output, matrix, layers, ctx, state);
            },
        }
    }
}

impl SpaceCadet {
    /// The key and the world after the key has handled `state`, where the
    /// key for taps is nested `fuel` deep.
    ///
    /// A press puts the buffer for two events in place, remembers how many
    /// presses have left the output keyboard, and sends the press of the
    /// modifier, which waits in the buffer. At the release, if no press has
    /// left since, the buffer is taken away, and the modifier's press with
    /// it, and the key for taps is pressed and released; otherwise the
    /// modifier is released. A hold does nothing.
    pub open spec fn handled_within(
        self,
        fuel: nat,
        w: World,
        ctx: KeyEventContext,
        state: KeyStateChange,
    ) -> (SpaceCadet, World)
        decreases 2 * fuel + 2,
    {
        match state {
            KeyStateChange::Pressed => {
                let buffered = World {
                    output: w.output.set_buffer(BufferState::spacecadet()),
                    ..w
                };
                (
                    SpaceCadet { number_of_keys_pressed: w.output.stats.pressed, ..self },
                    buffered.send(self.when_held.event(KeyStateChange::Pressed)),
                )
            },
            KeyStateChange::Released => {
                if w.output.stats.pressed == self.number_of_keys_pressed {
                    let direct = World {
                        output: w.output.set_buffer(BufferState::immediate()),
                        ..w
                    };
                    let (down, pressed) = self.when_tapped.handled_within(
                        fuel,
                        direct,
                        ctx,
                        KeyStateChange::Pressed,
                    );
                    let (up, released) = down.handled_within(
                        fuel,
                        pressed,
                        ctx,
                        KeyStateChange::Released,
                    );
                    (SpaceCadet { when_tapped: Box::new(up), ..self }, released)
                } else {
                    (self, w.send(self.when_held.event(KeyStateChange::Released)))
                }
            },
            KeyStateChange::Held => (self, w),
        }
    }

    /// The key and the world after the key has handled `state`.
    pub open spec fn handled(self, w: World, ctx: KeyEventContext, state: KeyStateChange) -> (
        SpaceCadet,
        World,
    ) {
        self.handled_within(self.when_tapped.depth(), w, ctx, state)
    }

    /// Create a key that taps `when_tapped` and holds `modifier`.
    pub fn new_from_key(when_tapped: NormalKey, modifier: NormalKey) -> (k: SpaceCadet)
        ensures
            k == (SpaceCadet {
                when_tapped: Box::new(KeyCode::Normal(when_tapped)),
                when_held: modifier,
                number_of_keys_pressed: 0,
            }),
    {
        SpaceCadet::new(Box::new(KeyCode::Normal(when_tapped)), modifier)
    }

    /// Create a key that taps the key `when_tapped` and holds `modifier`.
    pub fn new(when_tapped: Box<KeyCode>, modifier: NormalKey) -> (k: SpaceCadet)
        ensures
            k == (SpaceCadet { when_tapped, when_held: modifier, number_of_keys_pressed: 0 }),
    {
        SpaceCadet { when_tapped, when_held: modifier, number_of_keys_pressed: 0 }
    }

    /// React to a `KeyStateChange` event (e.g. the key was pressed).
    pub fn handle_event<O: OutputKeyboard>(
        &mut self,
        output: &mut O,
        matrix: &mut VirtualKeyboardMatrix,
        layers: &mut LayerCollection,
        ctx: &KeyEventContext,
        state: KeyStateChange,
    )
        requires
            old(matrix).wf(),
            KeyCode::SpaceCadet(*old(self)).can_handle(
                world_of(*old(output), *old(matrix), *old(layers)),
                *ctx,
                state,
            ),
        ensures
            final(matrix).wf(),
            (*final(self), world_of(*final(output), *final(matrix), *final(layers))) == old(
                self,
            ).handled(world_of(*old(output), *old(matrix), *old(layers)), *ctx, state),
        decreases 2 * old(self).when_tapped.depth() + 2,
    {
        let ghost start = world_of(*output, *matrix, *layers);
        match state {
            KeyStateChange::Pressed => {
                // When the key is pressed, we don't know whether to start the modifier
                // or to emit a PRESS + RELEASE for the key. This means we need to watch
                // for new key events. Key interception is well outside our permissions, so we'll
                // rely on the driver to fill a two event buffer (modifier + some other key).
                output.set_buffer(EventBuffer::new_spacecadet());

                // Record how many keys have been pressed, then send a pressed event.
                // Because the buffer is active, this press won't increment any stats yet.
                self.number_of_keys_pressed = output.get_stats().get(KeyStateChange::Pressed);
                let mut modifier: NormalKey = self.when_held;
                modifier.handle_event(output, matrix, layers, ctx, KeyStateChange::Pressed);
            },
            KeyStateChange::Released => {
                // Was the key pressed and released without any other keys being struck?
                let pressed_count = output.get_stats().get(KeyStateChange::Pressed);
                let press_and_immediate_release = pressed_count == self.number_of_keys_pressed;
                if press_and_immediate_release {
                    // Reset the driver's space cadet buffer.
                    // Recall that this will clear a "modifier pressed" event.
                    output.set_buffer(EventBuffer::new());

                    // Then send a PRESS + RELEASE for the key.
                    proof {
                        let direct = World {
                            output: start.output.set_buffer(BufferState::immediate()),
                            ..start
                        };
                        self.when_tapped.lemma_handled(direct, *ctx, KeyStateChange::Pressed);
                    }
                    self.when_tapped.handle_event(
                        output,
                        matrix,
                        layers,
                        ctx,
                        KeyStateChange::Pressed,
                    );
                    self.when_tapped.handle_event(
                        output,
                        matrix,
                        layers,
                        ctx,
                        KeyStateChange::Released,
                    );
                } else {
                    // Other keys were pressed since this key was pressed.
                    // We trust the driver to handle the key we placed in the spacecadet buffer.
                    // We'll send the closing release event for the modifier.
                    let mut modifier: NormalKey = self.when_held;
                    modifier.handle_event(output, matrix, layers, ctx, KeyStateChange::Released);
                }
            },
            KeyStateChange::Held => {},
        }
    }
}

impl KeyCode {
    /// How deep keys are nested in the key.
    pub open spec fn depth(self) -> nat
        decreases self,
    {
        match self {
            KeyCode::Wrapped(k) => 1 + k.inside.depth(),
            KeyCode::SpaceCadet(k) => 1 + k.when_tapped.depth(),
            _ => 0,
        }
    }

    /// The most events that the key may send for one change of its state,
    /// whatever the change is.
    pub open spec fn demand(self) -> nat
        decreases self,
    {
        match self {
            KeyCode::Normal(_) => 1,
            KeyCode::Macro(k) => k.demand(),
            KeyCode::HoldEnableLayerPress(_) => 2,
            KeyCode::OneShotLayer(_) => 1,
            KeyCode::Wrapped(k) => 1 + k.inside.demand(),
            KeyCode::SpaceCadet(k) => 1 + 2 * k.when_tapped.demand(),
            _ => 0,
        }
    }

    /// True when `layers` has each layer that the key, or a key within it, names.
    pub open spec fn layers_known(self, layers: LayersState) -> bool
        decreases self,
    {
        match self {
            KeyCode::ToggleLayer(k) => layers.contains(k.layer_name@),
            KeyCode::MomentarilyEnableLayer(k) => layers.contains(k.layer_name@),
            KeyCode::ActivateLayer(k) => layers.contains(k.layer_name@),
            KeyCode::HoldEnableLayerPress(k) => layers.contains(k.layer_name@),
            KeyCode::OneShotLayer(k) => layers.contains(k.layer_name@),
            KeyCode::Wrapped(k) => k.inside.layers_known(layers),
            KeyCode::SpaceCadet(k) => k.when_tapped.layers_known(layers),
            _ => true,
        }
    }

    /// The number of events that the output keyboard must be able to count
    /// beyond its load for the key to handle the change `state` of its
    /// state: what the key may send for that change.
    pub open spec fn demand_for(self, state: KeyStateChange) -> nat
        decreases self,
    {
        match self {
            KeyCode::Normal(_) => 1,
            KeyCode::Macro(k) => if state == k.play_macro_when {
                k.demand()
            } else {
                0
            },
            KeyCode::HoldEnableLayerPress(_) => if state == KeyStateChange::Released {
                2
            } else {
                0
            },
            KeyCode::OneShotLayer(_) => if state == KeyStateChange::Pressed {
                1
            } else {
                0
            },
            KeyCode::Wrapped(k) => if state == KeyStateChange::Held {
                k.inside.demand_for(state)
            } else {
                1 + k.inside.demand_for(state)
            },
            KeyCode::SpaceCadet(k) => match state {
                KeyStateChange::Pressed => 1,
                KeyStateChange::Held => 0,
                KeyStateChange::Released => {
                    let tap = k.when_tapped.demand_for(KeyStateChange::Pressed)
                        + k.when_tapped.demand_for(KeyStateChange::Released);
                    if tap >= 1 {
                        tap
                    } else {
                        1
                    }
                },
            },
            _ => 0,
        }
    }

    /// No change of state demands more than the key demands at most.
    pub proof fn lemma_demand_for(self, state: KeyStateChange)
        ensures
            self.demand_for(state) <= self.demand(),
        decreases self,
    {
        match self {
            KeyCode::Wrapped(k) => {
                k.inside.lemma_demand_for(state);
            },
            KeyCode::SpaceCadet(k) => {
                k.when_tapped.lemma_demand_for(KeyStateChange::Pressed);
                k.when_tapped.lemma_demand_for(KeyStateChange::Released);
            },
            _ => {},
        }
    }

    /// True when the key can handle the change `state` of its state in the
    /// world `w`: the world is well-formed, the layers that the key names
    /// are there, and the output keyboard can count the events that the key
    /// may send for that change.
    pub open spec fn can_handle(self, w: World, ctx: KeyEventContext, state: KeyStateChange) -> bool {
        &&& w.wf(ctx)
        &&& self.layers_known(w.layers)
        &&& w.output.load() + self.demand_for(state) <= u32::MAX
    }

    /// True when the key is transparent.
    pub open spec fn spec_is_transparent(&self) -> bool {
        self is Transparent
    }

    /// The constraints of the key.
    pub open spec fn constraints(self) -> Seq<KeyConstraint> {
        match self {
            KeyCode::ToggleLayer(k) => seq![KeyConstraint::LayerExists(k.layer_name)],
            KeyCode::MomentarilyEnableLayer(k) => seq![
                KeyConstraint::LayerExists(k.layer_name),
                KeyConstraint::KeyOnOtherLayerIsTransparent(k.layer_name),
            ],
            KeyCode::ActivateLayer(k) => seq![KeyConstraint::LayerExists(k.layer_name)],
            KeyCode::HoldEnableLayerPress(k) => seq![KeyConstraint::LayerExists(k.layer_name)],
            KeyCode::OneShotLayer(k) => seq![KeyConstraint::LayerExists(k.layer_name)],
            _ => Seq::empty(),
        }
    }

    /// The key and the world after the key, nested `fuel` deep, has handled
    /// `state` in the world `w`, each kind of key in its way. A transparent
    /// key and an opaque key do nothing.
    pub open spec fn handled_within(
        self,
        fuel: nat,
        w: World,
        ctx: KeyEventContext,
        state: KeyStateChange,
    ) -> (KeyCode, World)
        decreases 2 * fuel + 1,
    {
        match self {
            KeyCode::Transparent(_) => (self, w),
            KeyCode::Opaque(_) => (self, w),
            KeyCode::Normal(k) => (KeyCode::Normal(k.handled(w, ctx, state).0), k.handled(w, ctx, state).1),
            KeyCode::Macro(k) => (KeyCode::Macro(k.handled(w, ctx, state).0), k.handled(w, ctx, state).1),
            KeyCode::ToggleLayer(k) => (
                KeyCode::ToggleLayer(k.handled(w, ctx, state).0),
                k.handled(w, ctx, state).1,
            ),
            KeyCode::MomentarilyEnableLayer(k) => (
                KeyCode::MomentarilyEnableLayer(k.handled(w, ctx, state).0),
                k.handled(w, ctx, state).1,
            ),
            KeyCode::ActivateLayer(k) => (
                KeyCode::ActivateLayer(k.handled(w, ctx, state).0),
                k.handled(w, ctx, state).1,
            ),
            KeyCode::HoldEnableLayerPress(k) => (
                KeyCode::HoldEnableLayerPress(k.handled(w, ctx, state).0),
                k.handled(w, ctx, state).1,
            ),
            KeyCode::OneShotLayer(k) => (
                KeyCode::OneShotLayer(k.handled(w, ctx, state).0),
                k.handled(w, ctx, state).1,
            ),
            KeyCode::Wrapped(k) => if fuel == 0 {
                (self, w)
            } else {
                (
                    KeyCode::Wrapped(k.handled_within((fuel - 1) as nat, w, ctx, state).0),
                    k.handled_within((fuel - 1) as nat, w, ctx, state).1,
                )
            },
            KeyCode::SpaceCadet(k) => if fuel == 0 {
                (self, w)
            } else {
                (
                    KeyCode::SpaceCadet(k.handled_within((fuel - 1) as nat, w, ctx, state).0),
                    k.handled_within((fuel - 1) as nat, w, ctx, state).1,
                )
            },
        }
    }

    /// The key and the world after the key has handled `state` in the world `w`.
    pub open spec fn handled(self, w: World, ctx: KeyEventContext, state: KeyStateChange) -> (
        KeyCode,
        World,
    ) {
        self.handled_within(self.depth(), w, ctx, state)
    }

    /// Layers with the same names know the same keys.
    pub proof fn lemma_layers_known(self, a: LayersState, b: LayersState)
        requires
            a.name_to_idx == b.name_to_idx,
        ensures
            self.layers_known(a) == self.layers_known(b),
        decreases self,
    {
        match self {
            KeyCode::Wrapped(k) => {
                k.inside.lemma_layers_known(a, b);
            },
            KeyCode::SpaceCadet(k) => {
                k.when_tapped.lemma_layers_known(a, b);
            },
            _ => {},
        }
    }

    /// Whatever a key does with a change of its state, and whatever the
    /// counts are: every event that the output keyboard holds or has let go
    /// afterwards carries one of the three key state changes, if that was
    /// so before; and the events that had left before are the first of those
    /// that have left afterwards.
    pub proof fn lemma_handled_key_states(
        self,
        fuel: nat,
        w: World,
        ctx: KeyEventContext,
        state: KeyStateChange,
    )
        requires
            w.output.carries_key_states(),
        ensures
            self.handled_within(fuel, w, ctx, state).1.output.carries_key_states(),
            w.output.emitted.is_prefix_of(self.handled_within(fuel, w, ctx, state).1.output.emitted),
        decreases fuel,
    {
        match self {
            KeyCode::Normal(k) => {
                w.lemma_send_key_states(k.value, state);
            },
            KeyCode::Macro(k) => {
                k.lemma_played_key_states(w, k.keys@.len());
            },
            KeyCode::HoldEnableLayerPress(k) => {
                w.lemma_tap_key_states(k.key.value);
            },
            KeyCode::Wrapped(k) => {
                if fuel > 0 {
                    let inside = *k.inside;
                    let inner = (fuel - 1) as nat;
                    match state {
                        KeyStateChange::Pressed => {
                            let sent = w.send(k.outside.event(state));
                            w.lemma_send_key_states(k.outside.value, state);
                            inside.lemma_handled_key_states(inner, sent, ctx, state);
                        },
                        KeyStateChange::Held => {
                            inside.lemma_handled_key_states(inner, w, ctx, state);
                        },
                        KeyStateChange::Released => {
                            inside.lemma_handled_key_states(inner, w, ctx, state);
                            inside.handled_within(inner, w, ctx, state).1.lemma_send_key_states(
                                k.outside.value,
                                state,
                            );
                        },
                    }
                }
            },
            KeyCode::SpaceCadet(k) => {
                if fuel > 0 {
                    let tap = *k.when_tapped;
                    let inner = (fuel - 1) as nat;
                    match state {
                        KeyStateChange::Pressed => {
                            let buffered = World {
                                output: w.output.set_buffer(BufferState::spacecadet()),
                                ..w
                            };
                            buffered.lemma_send_key_states(
                                k.when_held.value,
                                KeyStateChange::Pressed,
                            );
                        },
                        KeyStateChange::Released => {
                            if w.output.stats.pressed == k.number_of_keys_pressed {
                                let direct = World {
                                    output: w.output.set_buffer(BufferState::immediate()),
                                    ..w
                                };
                                tap.lemma_handled_key_states(
                                    inner,
                                    direct,
                                    ctx,
                                    KeyStateChange::Pressed,
                                );
                                let (down, pressed) = tap.handled_within(
                                    inner,
                                    direct,
                                    ctx,
                                    KeyStateChange::Pressed,
                                );
                                down.lemma_handled_key_states(
                                    inner,
                                    pressed,
                                    ctx,
                                    KeyStateChange::Released,
                                );
                            } else {
                                w.lemma_send_key_states(
                                    k.when_held.value,
                                    KeyStateChange::Released,
                                );
                            }
                        },
                        KeyStateChange::Held => {},
                    }
                }
            },
            _ => {},
        }
    }

    /// True when handling `state` in `w` leaves a well-formed world with the
    /// same layer names and the same matrix but for blocks, an output
    /// keyboard that has sent no more events than the key demands for that
    /// change, and a key of the same kind that names the same layers and
    /// demands as much as before.
    pub open spec fn handles_well(self, w: World, ctx: KeyEventContext, state: KeyStateChange) -> bool {
        let (after, next) = self.handled(w, ctx, state);
        &&& w.leads_to(next, ctx, self.demand_for(state))
        &&& after.layers_known(next.layers)
        &&& after.demand() == self.demand()
        &&& forall|s: KeyStateChange| #[trigger] after.demand_for(s) == self.demand_for(s)
        &&& after.depth() == self.depth()
        &&& after.spec_is_transparent() == self.spec_is_transparent()
        &&& after.constraints() == self.constraints()
    }

    /// A hardware key and a macro handle well.
    proof fn lemma_handled_sending(self, w: World, ctx: KeyEventContext, state: KeyStateChange)
        requires
            self.can_handle(w, ctx, state),
            self is Normal || self is Macro,
        ensures
            self.handles_well(w, ctx, state),
    {
        match self {
            KeyCode::Normal(k) => {
                w.lemma_send(ctx, k.value, state);
            },
            KeyCode::Macro(k) => {
                if state == k.play_macro_when {
                    k.lemma_played(w, ctx, k.keys@.len());
                }
            },
            _ => {},
        }
    }

    /// The keys that toggle, enable for a moment, or activate a layer handle well.
    proof fn lemma_handled_switching(self, w: World, ctx: KeyEventContext, state: KeyStateChange)
        requires
            self.can_handle(w, ctx, state),
            self is ToggleLayer || self is MomentarilyEnableLayer || self is ActivateLayer,
        ensures
            self.handles_well(w, ctx, state),
    {
        match self {
            KeyCode::ToggleLayer(k) => {
                w.lemma_set_layer(ctx, k.layer_name@, true);
                let toggled = World { layers: w.layers.toggle(k.layer_name@), ..w };
                toggled.lemma_block(ctx);
                w.lemma_leads_on(toggled, toggled.block_release_and_hold(ctx.location), ctx, 0, 0);
            },
            KeyCode::MomentarilyEnableLayer(k) => {
                w.lemma_set_layer(ctx, k.layer_name@, true);
                w.lemma_set_layer(ctx, k.layer_name@, false);
            },
            KeyCode::ActivateLayer(k) => {
                w.lemma_set_layer(ctx, k.layer_name@, true);
                let enabled = w.set_layer(k.layer_name@, true);
                enabled.lemma_block(ctx);
                w.lemma_leads_on(enabled, enabled.block_release_and_hold(ctx.location), ctx, 0, 0);
            },
            _ => {},
        }
    }

    /// The key that enables a layer when held handles well.
    proof fn lemma_handled_hold_enable(self, w: World, ctx: KeyEventContext, state: KeyStateChange)
        requires
            self.can_handle(w, ctx, state),
            self is HoldEnableLayerPress,
        ensures
            self.handles_well(w, ctx, state),
    {
        match self {
            KeyCode::HoldEnableLayerPress(k) => {
                w.lemma_set_layer(ctx, k.layer_name@, true);
                let enabled = w.set_layer(k.layer_name@, true);
                enabled.lemma_block(ctx);
                w.lemma_leads_on(enabled, enabled.block_release_and_hold(ctx.location), ctx, 0, 0);
                if state == KeyStateChange::Released {
                    w.lemma_tap(ctx, k.key.value);
                }
            },
            _ => {},
        }
    }

    /// The one-shot key handles well.
    proof fn lemma_handled_one_shot(self, w: World, ctx: KeyEventContext, state: KeyStateChange)
        requires
            self.can_handle(w, ctx, state),
            self is OneShotLayer,
        ensures
            self.handles_well(w, ctx, state),
    {
        match self {
            KeyCode::OneShotLayer(k) => {
                w.lemma_set_layer(ctx, k.layer_name@, true);
                let enabled = w.set_layer(k.layer_name@, true);
                let scheduled = World {
                    layers: enabled.layers.schedule(k.scheduled(w.output.stats.released)),
                    ..enabled
                };
                assert(enabled.leads_to(scheduled, ctx, 0));
                scheduled.lemma_block(ctx);
                w.lemma_leads_on(enabled, scheduled, ctx, 0, 0);
                w.lemma_leads_on(scheduled, scheduled.block_release_and_hold(ctx.location), ctx, 0, 0);
            },
            _ => {},
        }
    }

    /// A wrapped key handles well, given that the key inside does.
    proof fn lemma_handled_wrapped(self, w: World, ctx: KeyEventContext, state: KeyStateChange)
        requires
            self.can_handle(w, ctx, state),
            self is Wrapped,
        ensures
            self.handles_well(w, ctx, state),
        decreases self.depth(), 0nat,
    {
        match self {
            KeyCode::Wrapped(k) => {
                let inside = *k.inside;
                match state {
                    KeyStateChange::Pressed => {
                        let sent = w.send(k.outside.event(state));
                        w.lemma_send(ctx, k.outside.value, state);
                        inside.lemma_layers_known(w.layers, sent.layers);
                        inside.lemma_handled(sent, ctx, state);
                        w.lemma_leads_on(
                            sent,
                            inside.handled(sent, ctx, state).1,
                            ctx,
                            1,
                            inside.demand_for(state),
                        );
                    },
                    KeyStateChange::Held => {
                        inside.lemma_handled(w, ctx, state);
                    },
                    KeyStateChange::Released => {
                        inside.lemma_handled(w, ctx, state);
                        let (after, mid) = inside.handled(w, ctx, state);
                        mid.lemma_send(ctx, k.outside.value, state);
                        let last = mid.send(k.outside.event(state));
                        after.lemma_layers_known(mid.layers, last.layers);
                        w.lemma_leads_on(mid, last, ctx, inside.demand_for(state), 1);
                    },
                }
                let after = self.handled(w, ctx, state).0;
                assert forall|s: KeyStateChange| #[trigger]
                    after.demand_for(s) == self.demand_for(s) by {
                    match after {
                        KeyCode::Wrapped(k2) => {
                            assert(k2.inside.demand_for(s) == inside.demand_for(s));
                        },
                        _ => {},
                    }
                }
            },
            _ => {},
        }
    }

    /// A space cadet key handles well, given that its key for taps does.
    proof fn lemma_handled_space_cadet(self, w: World, ctx: KeyEventContext, state: KeyStateChange)
        requires
            self.can_handle(w, ctx, state),
            self is SpaceCadet,
        ensures
            self.handles_well(w, ctx, state),
        decreases self.depth(), 0nat,
    {
        match self {
            KeyCode::SpaceCadet(k) => {
                let tap = *k.when_tapped;
                match state {
                    KeyStateChange::Pressed => {
                        let buffered = World {
                            output: w.output.set_buffer(BufferState::spacecadet()),
                            ..w
                        };
                        assert(w.leads_to(buffered, ctx, 0));
                        buffered.lemma_send(ctx, k.when_held.value, KeyStateChange::Pressed);
                        let next = buffered.send(k.when_held.event(KeyStateChange::Pressed));
                        w.lemma_leads_on(buffered, next, ctx, 0, 1);
                        tap.lemma_layers_known(w.layers, next.layers);
                    },
                    KeyStateChange::Released => {
                        if w.output.stats.pressed == k.number_of_keys_pressed {
                            let direct = World {
                                output: w.output.set_buffer(BufferState::immediate()),
                                ..w
                            };
                            assert(w.leads_to(direct, ctx, 0));
                            tap.lemma_layers_known(w.layers, direct.layers);
                            tap.lemma_handled(direct, ctx, KeyStateChange::Pressed);
                            let (down, pressed) = tap.handled(direct, ctx, KeyStateChange::Pressed);
                            assert(down.demand_for(KeyStateChange::Released) == tap.demand_for(
                                KeyStateChange::Released,
                            ));
                            down.lemma_handled(pressed, ctx, KeyStateChange::Released);
                            let (up, released) = down.handled(pressed, ctx, KeyStateChange::Released);
                            assert(up.demand_for(KeyStateChange::Pressed) == down.demand_for(
                                KeyStateChange::Pressed,
                            ));
                            assert(up.demand_for(KeyStateChange::Released) == down.demand_for(
                                KeyStateChange::Released,
                            ));
                            assert(down.demand_for(KeyStateChange::Pressed) == tap.demand_for(
                                KeyStateChange::Pressed,
                            ));
                            w.lemma_leads_on(
                                direct,
                                pressed,
                                ctx,
                                0,
                                tap.demand_for(KeyStateChange::Pressed),
                            );
                            w.lemma_leads_on(
                                pressed,
                                released,
                                ctx,
                                tap.demand_for(KeyStateChange::Pressed),
                                tap.demand_for(KeyStateChange::Released),
                            );
                        } else {
                            w.lemma_send(ctx, k.when_held.value, KeyStateChange::Released);
                            let next = w.send(k.when_held.event(KeyStateChange::Released));
                            tap.lemma_layers_known(w.layers, next.layers);
                        }
                    },
                    KeyStateChange::Held => {},
                }
                let after = self.handled(w, ctx, state).0;
                assert forall|s: KeyStateChange| #[trigger]
                    after.demand_for(s) == self.demand_for(s) by {
                    match after {
                        KeyCode::SpaceCadet(k2) => {
                            assert(k2.when_tapped.demand_for(KeyStateChange::Pressed)
                                == tap.demand_for(KeyStateChange::Pressed));
                            assert(k2.when_tapped.demand_for(KeyStateChange::Released)
                                == tap.demand_for(KeyStateChange::Released));
                        },
                        _ => {},
                    }
                }
            },
            _ => {},
        }
    }

    /// A key that can handle a change of its state leaves a well-formed
    /// world with the same layer names and the same matrix but for blocks;
    /// the output keyboard has sent no more events than the key demands; and
    /// the key is of the same kind afterwards, names the same layers, and
    /// demands as much as before.
    pub proof fn lemma_handled(self, w: World, ctx: KeyEventContext, state: KeyStateChange)
        requires
            self.can_handle(w, ctx, state),
        ensures
            self.handles_well(w, ctx, state),
        decreases self.depth(), 1nat,
    {
        match self {
            KeyCode::Transparent(_) => {},
            KeyCode::Opaque(_) => {},
            KeyCode::Normal(_) => {
                self.lemma_handled_sending(w, ctx, state);
            },
            KeyCode::Macro(_) => {
                self.lemma_handled_sending(w, ctx, state);
            },
            KeyCode::ToggleLayer(_) => {
                self.lemma_handled_switching(w, ctx, state);
            },
            KeyCode::MomentarilyEnableLayer(_) => {
                self.lemma_handled_switching(w, ctx, state);
            },
            KeyCode::ActivateLayer(_) => {
                self.lemma_handled_switching(w, ctx, state);
            },
            KeyCode::HoldEnableLayerPress(_) => {
                self.lemma_handled_hold_enable(w, ctx, state);
            },
            KeyCode::OneShotLayer(_) => {
                self.lemma_handled_one_shot(w, ctx, state);
            },
            KeyCode::Wrapped(_) => {
                self.lemma_handled_wrapped(w, ctx, state);
            },
            KeyCode::SpaceCadet(_) => {
                self.lemma_handled_space_cadet(w, ctx, state);
            },
        }
    }

    /// React to a `KeyStateChange` event (e.g. the key was pressed).
    pub fn handle_event<O: OutputKeyboard>(
        &mut self,
        output: &mut O,
        matrix: &mut VirtualKeyboardMatrix,
        layers: &mut LayerCollection,
        ctx: &KeyEventContext,
        state: KeyStateChange,
    )
        requires
            old(matrix).wf(),
            old(self).can_handle(world_of(*old(output), *old(matrix), *old(layers)), *ctx, state),
        ensures
            final(matrix).wf(),
            (*final(self), world_of(*final(output), *final(matrix), *final(layers))) == old(
                self,
            ).handled(world_of(*old(output), *old(matrix), *old(layers)), *ctx, state),
        decreases 2 * old(self).depth() + 1,
    {
        match self {
            KeyCode::Transparent(_) => {},
            KeyCode::Opaque(_) => {},
            KeyCode::Normal(k) => {
                k.handle_event(output, matrix, layers, ctx, state);
            },
            KeyCode::Macro(k) => {
                k.handle_event(output, matrix, layers, ctx, state);
            },
            KeyCode::ToggleLayer(k) => {
                k.handle_event(output, matrix, layers, ctx, state);
            },
            KeyCode::MomentarilyEnableLayer(k) => {
                k.handle_event(output, matrix, layers, ctx, state);
            },
            KeyCode::ActivateLayer(k) => {
                k.handle_event(output, matrix, layers, ctx, state);
            },
            KeyCode::HoldEnableLayerPress(k) => {
                k.handle_event(output, matrix, layers, ctx, state);
            },
            KeyCode::OneShotLayer(k) => {
                k.handle_event(output, matrix, layers, ctx, state);
            },
            KeyCode::Wrapped(k) => {
                k.handle_event(output, matrix, layers, ctx, state);
            },
            KeyCode::SpaceCadet(k) => {
                k.handle_event(output, matrix, layers, ctx, state);
            },
        }
    }

    /// Check if the key is transparent (i.e. a pass-through to the key in the next lower layer).
    #[verifier::when_used_as_spec(spec_is_transparent)]
    pub fn is_transparent(&self) -> (r: bool)
        ensures
            r == self.spec_is_transparent(),
    {
        match self {
            KeyCode::Transparent(k) => k.is_transparent(),
            _ => false,
        }
    }

    /// Get any constraints the key may have.
    pub fn get_constraints(&self) -> (rules: Vec<KeyConstraint>)
        ensures
            rules@ == self.constraints(),
    {
        match self {
            KeyCode::ToggleLayer(k) => k.get_constraints(),
            KeyCode::MomentarilyEnableLayer(k) => k.get_constraints(),
            KeyCode::ActivateLayer(k) => k.get_constraints(),
            KeyCode::HoldEnableLayerPress(k) => k.get_constraints(),
            KeyCode::OneShotLayer(k) => k.get_constraints(),
            _ => Vec::new(),
        }
    }
}

} // verus!
