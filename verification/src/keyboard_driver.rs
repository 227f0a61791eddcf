use crate::input_event::InputEvent;
use crate::input_keyboard::InputKeyboard;
use crate::keys::{world_of, KeyCode, KeyEventContext, World};
use crate::layer::{KeyCodeMatrix, LayerAttributes, LayerCollection};
use crate::output_keyboard::{all_key_states, OutputKeyboard};
use crate::time::Instant;
use crate::virtual_keyboard_matrix::{
    Index2D, KeyStateChange, MatrixState, MatrixUpdateResult, VirtualKeyboardMatrix,
};
use vstd::prelude::*;

verus! {

/// A driver without its input keyboard, as a mathematical value.
#[verifier::ext_equal]
pub struct DriverState {
    /// The output keyboard, the matrix and the layers.
    pub world: World,
    /// The keys by layer, row and column.
    pub keys: Seq<Seq<Seq<KeyCode>>>,
}

impl DriverState {
    /// True when `idx` is a cell of layer `l`.
    pub open spec fn has_key(self, l: int, idx: Index2D) -> bool {
        0 <= l < self.keys.len() && self.world.matrix.in_range(idx)
    }

    /// The parts are well-formed; there are keys for each layer, in the
    /// shape of the matrix; and the layers that keys and scheduled events
    /// name are there.
    pub open spec fn wf(self) -> bool {
        &&& self.world.output.wf()
        &&& self.world.matrix.wf()
        &&& self.world.layers.wf()
        &&& self.world.layers.callbacks_known()
        &&& self.keys.len() == self.world.layers.attributes.len()
        &&& forall|l: int|
            0 <= l < self.keys.len() ==> (#[trigger] self.keys[l]).len() == self.world.matrix.dim.0
        &&& forall|l: int, r: int|
            0 <= l < self.keys.len() && 0 <= r < self.world.matrix.dim.0 ==> (
            #[trigger] self.keys[l][r]).len() == self.world.matrix.dim.1
        &&& forall|l: int, idx: Index2D|
            self.has_key(l, idx) ==> (#[trigger] self.keys[l][idx.0 as int][idx.1 as int]).layers_known(
                self.world.layers,
            )
    }

    /// True when no key demands more than `n`.
    pub open spec fn demand_bound(self, n: nat) -> bool {
        forall|l: int, idx: Index2D|
            self.has_key(l, idx) ==> (#[trigger] self.keys[l][idx.0 as int][idx.1 as int]).demand()
                <= n
    }

    /// True when the layer `l` is enabled and its key at `idx` is not transparent.
    pub open spec fn takes(self, l: int, idx: Index2D) -> bool {
        self.world.layers.is_enabled(l) && !self.keys[l][idx.0 as int][idx.1 as int].spec_is_transparent()
    }

    /// The highest of the first `n` layers that takes an event at `idx`.
    pub open spec fn resolve_below(self, n: nat, idx: Index2D) -> Option<int>
        decreases n,
    {
        if n == 0 {
            None
        } else if self.takes(n - 1, idx) {
            Some(n - 1)
        } else {
            self.resolve_below((n - 1) as nat, idx)
        }
    }

    /// The layer that an event at `idx` goes to.
    pub open spec fn resolve(self, idx: Index2D) -> Option<int> {
        self.resolve_below(self.keys.len(), idx)
    }

    /// True when the output keyboard can count what the key may send that
    /// takes the change `state` of the cell at `idx`.
    pub open spec fn can_dispatch(self, idx: Index2D, state: KeyStateChange) -> bool {
        match self.resolve(idx) {
            None => true,
            Some(l) => self.world.output.load() + self.keys[l][idx.0 as int][idx.1 as int].demand_for(
                state,
            ) <= u32::MAX,
        }
    }

    /// The keys with `key` at `idx` of layer `l`.
    pub open spec fn with_key(self, l: int, idx: Index2D, key: KeyCode) -> Seq<Seq<Seq<KeyCode>>> {
        self.keys.update(
            l,
            self.keys[l].update(
                idx.0 as int,
                self.keys[l][idx.0 as int].update(idx.1 as int, key),
            ),
        )
    }

    /// The driver after the change `state` of the cell at `idx` was
    /// dispatched at the time `now`: the key of the layer that takes it has
    /// handled it, and where no layer takes it, nothing has happened.
    pub open spec fn dispatch(self, idx: Index2D, state: KeyStateChange, now: Instant) -> DriverState {
        match self.resolve(idx) {
            None => self,
            Some(l) => {
                let (key, world) = self.keys[l][idx.0 as int][idx.1 as int].handled(
                    self.world,
                    KeyEventContext { location: idx, now },
                    state,
                );
                DriverState { world, keys: self.with_key(l, idx, key) }
            },
        }
    }

    /// The driver after a hold was dispatched for each of the first `n` of `cells`.
    pub open spec fn dispatch_held(self, cells: Seq<Index2D>, n: nat, now: Instant) -> DriverState
        decreases n,
    {
        if n == 0 {
            self
        } else {
            self.dispatch_held(cells, (n - 1) as nat, now).dispatch(
                cells[n - 1],
                KeyStateChange::Held,
                now,
            )
        }
    }

    /// The driver with `matrix` for its matrix.
    pub open spec fn with_matrix(self, matrix: MatrixState) -> DriverState {
        DriverState { world: World { matrix, ..self.world }, ..self }
    }

    /// The driver after the input event `e` was fed to it at the time
    /// `now`: an event from outside the matrix is passed on to the output
    /// keyboard, past the buffer; a change of a cell's state is dispatched;
    /// a redundant or blocked event changes the matrix and nothing else.
    pub open spec fn feed(self, e: InputEvent, now: Instant) -> DriverState {
        let (matrix, result) = self.world.matrix.update(e, now);
        let updated = self.with_matrix(matrix);
        match result {
            MatrixUpdateResult::Bypass => DriverState {
                world: World { output: updated.world.output.send_override(e, true), ..updated.world },
                ..updated
            },
            MatrixUpdateResult::Redundant(_) => updated,
            MatrixUpdateResult::StateChanged(idx, state) => updated.dispatch(idx, state, now),
            MatrixUpdateResult::Blocked => updated,
        }
    }

    /// The driver after the first `n` of `events` were fed to it in their order.
    pub open spec fn feed_all(self, events: Seq<InputEvent>, n: nat, now: Instant) -> DriverState
        decreases n,
    {
        if n == 0 {
            self
        } else {
            self.feed_all(events, (n - 1) as nat, now).feed(events[n - 1], now)
        }
    }

    /// The driver with the scheduled layer events checked against the counts
    /// of the output keyboard.
    pub open spec fn check_callbacks(self) -> DriverState {
        DriverState {
            world: World {
                layers: self.world.layers.check_event_callbacks(self.world.output.stats),
                ..self.world
            },
            ..self
        }
    }

    /// The driver after one tick at the time `now` with the input `pending`:
    /// first a hold is dispatched for each held cell, then the input events
    /// are fed in their order, and last the scheduled layer events are checked.
    pub open spec fn tick(self, now: Instant, pending: Seq<InputEvent>) -> DriverState {
        let (matrix, held) = self.world.matrix.detect_held_keys(now);
        self.with_matrix(matrix).dispatch_held(held, held.len(), now).feed_all(
            pending,
            pending.len(),
            now,
        ).check_callbacks()
    }

    /// True when `next` can have come from `self` within a tick: it is
    /// well-formed, has the same layer names, the same shape of matrix and
    /// keys with the same demands, and its output keyboard has sent `sends`
    /// events at most, all after those that `self` had sent.
    pub open spec fn steps_to(self, next: DriverState, sends: nat) -> bool {
        &&& next.wf()
        &&& next.keys.len() == self.keys.len()
        &&& next.world.layers.name_to_idx == self.world.layers.name_to_idx
        &&& next.world.matrix.dim == self.world.matrix.dim
        &&& next.world.matrix.keys == self.world.matrix.keys
        &&& next.world.matrix.hold_threshold == self.world.matrix.hold_threshold
        &&& next.world.output.load() <= self.world.output.load() + sends
        &&& self.world.output.emitted.is_prefix_of(next.world.output.emitted)
        &&& forall|n: nat| self.demand_bound(n) ==> next.demand_bound(n)
    }

    /// Where `self` steps to `mid` and `mid` steps on to `last`, `self`
    /// steps to `last`, and the events sent add up.
    pub proof fn lemma_steps_on(self, mid: DriverState, last: DriverState, first: nat, second: nat)
        requires
            self.steps_to(mid, first),
            mid.steps_to(last, second),
        ensures
            self.steps_to(last, first + second),
    {
    }

    /// Whatever is dispatched, and whatever the counts are: every event
    /// that the output keyboard holds or has let go afterwards carries one of
    /// the three key state changes, if that was so before.
    pub proof fn lemma_dispatch_key_states(self, idx: Index2D, state: KeyStateChange, now: Instant)
        requires
            self.world.output.carries_key_states(),
        ensures
            self.dispatch(idx, state, now).world.output.carries_key_states(),
            self.world.output.emitted.is_prefix_of(
                self.dispatch(idx, state, now).world.output.emitted,
            ),
    {
        match self.resolve(idx) {
            None => {},
            Some(l) => {
                let key = self.keys[l][idx.0 as int][idx.1 as int];
                key.lemma_handled_key_states(
                    key.depth(),
                    self.world,
                    KeyEventContext { location: idx, now },
                    state,
                );
            },
        }
    }

    /// The same of holds that are dispatched for cells.
    pub proof fn lemma_dispatch_held_key_states(self, cells: Seq<Index2D>, k: nat, now: Instant)
        requires
            self.world.output.carries_key_states(),
        ensures
            self.dispatch_held(cells, k, now).world.output.carries_key_states(),
            self.world.output.emitted.is_prefix_of(
                self.dispatch_held(cells, k, now).world.output.emitted,
            ),
        decreases k,
    {
        if k > 0 {
            self.lemma_dispatch_held_key_states(cells, (k - 1) as nat, now);
            self.dispatch_held(cells, (k - 1) as nat, now).lemma_dispatch_key_states(
                cells[k - 1],
                KeyStateChange::Held,
                now,
            );
        }
    }

    /// The same of an input event that is fed, if the event carries one
    /// of the three key state changes.
    pub proof fn lemma_feed_key_states(self, e: InputEvent, now: Instant)
        requires
            self.world.output.carries_key_states(),
            e.spec_has_key_state(),
        ensures
            self.feed(e, now).world.output.carries_key_states(),
            self.world.output.emitted.is_prefix_of(self.feed(e, now).world.output.emitted),
    {
        let (matrix, result) = self.world.matrix.update(e, now);
        let updated = self.with_matrix(matrix);
        match result {
            MatrixUpdateResult::Bypass => {
                updated.world.output.lemma_send_key_states(e, true);
            },
            MatrixUpdateResult::StateChanged(idx, state) => {
                updated.lemma_dispatch_key_states(idx, state, now);
            },
            _ => {},
        }
    }

    /// The same of input events that are fed in their order.
    pub proof fn lemma_feed_all_key_states(self, events: Seq<InputEvent>, k: nat, now: Instant)
        requires
            self.world.output.carries_key_states(),
            all_key_states(events),
            k <= events.len(),
        ensures
            self.feed_all(events, k, now).world.output.carries_key_states(),
            self.world.output.emitted.is_prefix_of(
                self.feed_all(events, k, now).world.output.emitted,
            ),
        decreases k,
    {
        if k > 0 {
            self.lemma_feed_all_key_states(events, (k - 1) as nat, now);
            self.feed_all(events, (k - 1) as nat, now).lemma_feed_key_states(events[k - 1], now);
        }
    }

    /// Every event that leaves in a tick has the value 0, 1 or 2: whatever
    /// the keys, the layers and the counts are, every event that the output
    /// keyboard holds or has let go after a tick carries one of the three key
    /// state changes, if that was so before the tick and is so of the input;
    /// and the events that had left before are the first of those that
    /// have left afterwards.
    pub proof fn lemma_tick_key_states(self, now: Instant, pending: Seq<InputEvent>)
        requires
            self.world.output.carries_key_states(),
            all_key_states(pending),
        ensures
            self.tick(now, pending).world.output.carries_key_states(),
            self.world.output.emitted.is_prefix_of(self.tick(now, pending).world.output.emitted),
    {
        let (matrix, held) = self.world.matrix.detect_held_keys(now);
        let scanned = self.with_matrix(matrix);
        scanned.lemma_dispatch_held_key_states(held, held.len(), now);
        let dispatched = scanned.dispatch_held(held, held.len(), now);
        dispatched.lemma_feed_all_key_states(pending, pending.len(), now);
    }

    /// A matrix of the same frame in place of the old one steps to a driver
    /// whose output keyboard has sent nothing.
    pub proof fn lemma_with_matrix(self, matrix: MatrixState)
        requires
            self.wf(),
            self.world.matrix.same_frame(matrix),
        ensures
            self.steps_to(self.with_matrix(matrix), 0),
    {
        let updated = self.with_matrix(matrix);
        assert forall|k: int, at: Index2D| updated.has_key(k, at) implies (
        #[trigger] updated.keys[k][at.0 as int][at.1 as int]).layers_known(
            updated.world.layers,
        ) by {
            assert(self.has_key(k, at));
        }
        assert forall|m: nat| self.demand_bound(m) implies updated.demand_bound(m) by {
            assert forall|k: int, at: Index2D| updated.has_key(k, at) implies (
            #[trigger] updated.keys[k][at.0 as int][at.1 as int]).demand() <= m by {
                assert(self.has_key(k, at));
            }
        }
    }

    /// Checking the scheduled layer events steps to a driver whose output
    /// keyboard has sent nothing.
    pub proof fn lemma_check_callbacks(self)
        requires
            self.wf(),
        ensures
            self.steps_to(self.check_callbacks(), 0),
    {
        let last = self.check_callbacks();
        self.world.layers.lemma_checked(self.world.output.stats, self.world.layers.callbacks.len());
        assert forall|k: int, at: Index2D| last.has_key(k, at) implies (
        #[trigger] last.keys[k][at.0 as int][at.1 as int]).layers_known(last.world.layers) by {
            assert(self.has_key(k, at));
            self.keys[k][at.0 as int][at.1 as int].lemma_layers_known(
                self.world.layers,
                last.world.layers,
            );
        }
        assert forall|m: nat| self.demand_bound(m) implies last.demand_bound(m) by {
            assert forall|k: int, at: Index2D| last.has_key(k, at) implies (
            #[trigger] last.keys[k][at.0 as int][at.1 as int]).demand() <= m by {
                assert(self.has_key(k, at));
            }
        }
    }

    /// The layer that an event goes to is enabled and has a key at the
    /// cell that is not transparent, and no layer above it is like that;
    /// where the event goes to no layer, no layer is like that.
    pub proof fn lemma_resolve_below(self, n: nat, idx: Index2D)
        ensures
            match self.resolve_below(n, idx) {
                Some(l) => 0 <= l < n && self.takes(l, idx) && forall|j: int|
                    l < j < n ==> !self.takes(j, idx),
                None => forall|j: int| 0 <= j < n ==> !self.takes(j, idx),
            },
        decreases n,
    {
        if n > 0 {
            self.lemma_resolve_below((n - 1) as nat, idx);
        }
    }

    /// An output keyboard that can count the highest demand of a key can
    /// count what the key may send that takes a change of state.
    pub proof fn lemma_can_dispatch(self, idx: Index2D, state: KeyStateChange, n: nat)
        requires
            self.wf(),
            self.world.matrix.in_range(idx),
            self.demand_bound(n),
            self.world.output.load() + n <= u32::MAX,
        ensures
            self.can_dispatch(idx, state),
    {
        self.lemma_resolve_below(self.keys.len(), idx);
        match self.resolve(idx) {
            None => {},
            Some(l) => {
                assert(self.has_key(l, idx));
                self.keys[l][idx.0 as int][idx.1 as int].lemma_demand_for(state);
            },
        }
    }

    /// A dispatch steps to a driver whose output keyboard has sent no more
    /// than the highest demand of a key.
    pub proof fn lemma_dispatch(self, idx: Index2D, state: KeyStateChange, now: Instant, n: nat)
        requires
            self.wf(),
            self.world.matrix.in_range(idx),
            self.demand_bound(n),
            self.world.output.load() + n <= u32::MAX,
        ensures
            self.steps_to(self.dispatch(idx, state, now), n),
    {
        self.lemma_resolve_below(self.keys.len(), idx);
        match self.resolve(idx) {
            None => {},
            Some(l) => {
                let ctx = KeyEventContext { location: idx, now };
                let old_key = self.keys[l][idx.0 as int][idx.1 as int];
                assert(self.has_key(l, idx));
                old_key.lemma_demand_for(state);
                old_key.lemma_handled(self.world, ctx, state);
                let (key, world) = old_key.handled(self.world, ctx, state);
                let next = self.dispatch(idx, state, now);
                assert forall|k: int, at: Index2D| next.has_key(k, at) implies (
                #[trigger] next.keys[k][at.0 as int][at.1 as int]).layers_known(next.world.layers) by {
                    assert(self.has_key(k, at));
                    if k == l && at == idx {
                    } else {
                        assert(next.keys[k][at.0 as int][at.1 as int]
                            == self.keys[k][at.0 as int][at.1 as int]);
                        self.keys[k][at.0 as int][at.1 as int].lemma_layers_known(
                            self.world.layers,
                            next.world.layers,
                        );
                    }
                }
                assert forall|m: nat| self.demand_bound(m) implies next.demand_bound(m) by {
                    assert forall|k: int, at: Index2D| next.has_key(k, at) implies (
                    #[trigger] next.keys[k][at.0 as int][at.1 as int]).demand() <= m by {
                        assert(self.has_key(k, at));
                        if k == l && at == idx {
                        } else {
                            assert(next.keys[k][at.0 as int][at.1 as int]
                                == self.keys[k][at.0 as int][at.1 as int]);
                        }
                    }
                }
            },
        }
    }

    /// Dispatching holds for cells of the matrix steps to a driver whose
    /// output keyboard has sent no more than the highest demand for each.
    pub proof fn lemma_dispatch_held(self, cells: Seq<Index2D>, k: nat, now: Instant, n: nat)
        requires
            self.wf(),
            k <= cells.len(),
            forall|i: int| 0 <= i < cells.len() ==> self.world.matrix.in_range(#[trigger] cells[i]),
            self.demand_bound(n),
            self.world.output.load() + k * n <= u32::MAX,
        ensures
            self.steps_to(self.dispatch_held(cells, k, now), k * n),
        decreases k,
    {
        if k > 0 {
            assert((k - 1) * n + n == k * n) by (nonlinear_arith);
            self.lemma_dispatch_held(cells, (k - 1) as nat, now, n);
            let before = self.dispatch_held(cells, (k - 1) as nat, now);
            before.lemma_dispatch(cells[k - 1], KeyStateChange::Held, now, n);
            self.lemma_steps_on(before, self.dispatch_held(cells, k, now), ((k - 1) * n) as nat, n);
        } else {
            assert(0 * n == 0) by (nonlinear_arith);
        }
    }

    /// Feeding an event that carries a key state steps to a driver whose
    /// output keyboard has sent no more than the highest demand, or one event.
    pub proof fn lemma_feed(self, e: InputEvent, now: Instant, n: nat)
        requires
            self.wf(),
            e.spec_has_key_state(),
            n >= 1,
            self.demand_bound(n),
            self.world.output.load() + n <= u32::MAX,
        ensures
            self.steps_to(self.feed(e, now), n),
    {
        let (matrix, result) = self.world.matrix.update(e, now);
        self.world.matrix.lemma_update(e, now);
        let updated = self.with_matrix(matrix);
        self.lemma_with_matrix(matrix);
        match result {
            MatrixUpdateResult::Bypass => {
                updated.world.output.lemma_send_override(e, true);
                let sent = self.feed(e, now);
                assert(updated.steps_to(sent, 1)) by {
                    assert forall|k: int, at: Index2D| sent.has_key(k, at) implies (
                    #[trigger] sent.keys[k][at.0 as int][at.1 as int]).layers_known(
                        sent.world.layers,
                    ) by {
                        assert(updated.has_key(k, at));
                    }
                    assert forall|m: nat| updated.demand_bound(m) implies sent.demand_bound(m) by {
                        assert forall|k: int, at: Index2D| sent.has_key(k, at) implies (
                        #[trigger] sent.keys[k][at.0 as int][at.1 as int]).demand() <= m by {
                            assert(updated.has_key(k, at));
                        }
                    }
                }
                self.lemma_steps_on(updated, sent, 0, 1);
            },
            MatrixUpdateResult::StateChanged(idx, state) => {
                updated.lemma_dispatch(idx, state, now, n);
                self.lemma_steps_on(updated, updated.dispatch(idx, state, now), 0, n);
            },
            _ => {},
        }
    }

    /// Feeding events that carry key states steps to a driver whose output
    /// keyboard has sent no more than the highest demand, or one event, for each.
    pub proof fn lemma_feed_all(self, events: Seq<InputEvent>, k: nat, now: Instant, n: nat)
        requires
            self.wf(),
            k <= events.len(),
            all_key_states(events),
            n >= 1,
            self.demand_bound(n),
            self.world.output.load() + k * n <= u32::MAX,
        ensures
            self.steps_to(self.feed_all(events, k, now), k * n),
        decreases k,
    {
        if k > 0 {
            assert((k - 1) * n + n == k * n) by (nonlinear_arith);
            self.lemma_feed_all(events, (k - 1) as nat, now, n);
            let before = self.feed_all(events, (k - 1) as nat, now);
            before.lemma_feed(events[k - 1], now, n);
            self.lemma_steps_on(before, self.feed_all(events, k, now), ((k - 1) * n) as nat, n);
        } else {
            assert(0 * n == 0) by (nonlinear_arith);
        }
    }
}

/// A driver that includes in/out devices, a matrix, and key layers.
pub struct KeyboardDriver<I, O> where I: InputKeyboard, O: OutputKeyboard {
    pub input: I,
    pub output: O,
    pub matrix: VirtualKeyboardMatrix,
    pub layered_codes: Vec<KeyCodeMatrix>,
    pub layer_attributes: LayerCollection,
}

impl<I, O> KeyboardDriver<I, O> where I: InputKeyboard, O: OutputKeyboard {
    /// The driver without its input keyboard, as a mathematical value.
    pub open spec fn state(&self) -> DriverState {
        DriverState {
            world: world_of(self.output, self.matrix, self.layer_attributes),
            keys: self.layered_codes@.map_values(|m: KeyCodeMatrix| m.rows()),
        }
    }

    /// The matrix and the driver as a whole are well-formed.
    pub open spec fn wf(&self) -> bool {
        &&& self.matrix.wf()
        &&& self.state().wf()
    }

    /// True when the output keyboard can count the events of a tick that
    /// starts with `pending` input events: with `n` the demand of the most
    /// demanding key, and 1 at least, each cell of the matrix and each input
    /// event may send `n` events.
    pub open spec fn can_count(&self, pending: nat) -> bool {
        exists|n: nat|
            n >= 1 && #[trigger] self.state().demand_bound(n) && self.state().world.output.load() + (
            self.matrix@.dim.0 * self.matrix@.dim.1 + pending) * n <= u32::MAX
    }

    /// Add a layer to the driver by specify its attributes and code matrix.
    pub fn add_layer(&mut self, attr: LayerAttributes, codes: KeyCodeMatrix)
        ensures
            final(self).state().world == (World {
                layers: old(self).state().world.layers.add(attr),
                ..old(self).state().world
            }),
            final(self).state().keys == old(self).state().keys.push(codes.rows()),
            final(self).layer_attributes@ == old(self).layer_attributes@.add(attr),
            final(self).layered_codes@ == old(self).layered_codes@.push(codes),
            final(self).input == old(self).input,
            final(self).output == old(self).output,
            final(self).matrix == old(self).matrix,
    {
        self.layer_attributes.add(attr);
        self.layered_codes.push(codes);
        assert(self.state().keys =~= old(self).state().keys.push(codes.rows()));
    }

    /// Dispatch the change `state` of the cell at `idx`: the key of the highest
    /// enabled layer that is not transparent there handles it, with `idx`
    /// for its location and `now` for its time, and no other key and nothing
    /// else changes; where no enabled layer has a key there that is not
    /// transparent, nothing changes at all.
    pub fn matrix_state_changed(&mut self, idx: Index2D, state: KeyStateChange, now: Instant)
        requires
            old(self).wf(),
            old(self).matrix@.in_range(idx),
            old(self).state().can_dispatch(idx, state),
        ensures
            final(self).matrix.wf(),
            final(self).state() == old(self).state().dispatch(idx, state, now),
            final(self).input == old(self).input,
            match old(self).state().resolve(idx) {
                None => {
                    &&& final(self).state() == old(self).state()
                    &&& forall|j: int|
                        0 <= j < old(self).layered_codes@.len() ==> !old(self).state().takes(j, idx)
                },
                Some(l) => {
                    &&& 0 <= l < old(self).layered_codes@.len()
                    &&& old(self).state().takes(l, idx)
                    &&& forall|j: int|
                        l < j < old(self).layered_codes@.len() ==> !old(self).state().takes(j, idx)
                    &&& (
                        final(self).state().keys[l][idx.0 as int][idx.1 as int],
                        final(self).state().world,
                    ) == old(self).state().keys[l][idx.0 as int][idx.1 as int].handled(
                        old(self).state().world,
                        KeyEventContext { location: idx, now },
                        state,
                    )
                    &&& forall|k: int, at: Index2D|
                        old(self).state().has_key(k, at) && !(k == l && at == idx) ==> (
                        #[trigger] final(self).state().keys[k][at.0 as int][at.1 as int])
                            == old(self).state().keys[k][at.0 as int][at.1 as int]
                },
            },
    {
        // Starting at the highest enabled layer, find the first key that's
        // not transparent.
        let l = self.layered_codes.len();
        let ghost start = self.state();
        proof {
            start.lemma_resolve_below(start.keys.len(), idx);
        }
        let mut i: usize = l;
        while i > 0
            invariant
                i <= l,
                l == self.layered_codes@.len(),
                *self == *old(self),
                start == self.state(),
                self.wf(),
                self.matrix@.in_range(idx),
                start.can_dispatch(idx, state),
                start.resolve(idx) == start.resolve_below(i as nat, idx),
            decreases i,
        {
            i -= 1;
            assert(start.has_key(i as int, idx));
            assert(start.keys[i as int][idx.0 as int][idx.1 as int]
                == self.layered_codes@[i as int].codes@[idx.0 as int]@[idx.1 as int]);
            if self.layer_attributes.is_enabled(i) {
                if !self.layered_codes[i].codes[idx.0][idx.1].is_transparent() {
                    // Capture references to the driver and layers - then ask the key to handle
                    // a state change event.
                    let context = KeyEventContext { location: idx, now };
                    assert(start.resolve(idx) == Some(i as int));
                    let code = &mut self.layered_codes[i].codes[idx.0][idx.1];
                    code.handle_event(
                        &mut self.output,
                        &mut self.matrix,
                        &mut self.layer_attributes,
                        &context,
                        state,
                    );
                    assert(self.state().keys =~~= start.dispatch(idx, state, now).keys);
                    proof {
                        start.lemma_resolve_below(start.keys.len(), idx);
                    }
                    return ;
                }
            }
        }
    }

    /// Dispatches a hold for each of the cells.
    fn dispatch_held(&mut self, held: &Vec<Index2D>, now: Instant, Ghost(n): Ghost<nat>)
        requires
            old(self).wf(),
            forall|k: int| 0 <= k < held@.len() ==> old(self).matrix@.in_range(#[trigger] held@[k]),
            old(self).state().demand_bound(n),
            old(self).state().world.output.load() + held@.len() * n <= u32::MAX,
        ensures
            final(self).matrix.wf(),
            final(self).state() == old(self).state().dispatch_held(held@, held@.len(), now),
            final(self).input == old(self).input,
    {
        let ghost start = self.state();
        let mut i: usize = 0;
        while i < held.len()
            invariant
                i <= held@.len(),
                self.matrix.wf(),
                start.wf(),
                start.demand_bound(n),
                forall|k: int| 0 <= k < held@.len() ==> start.world.matrix.in_range(#[trigger] held@[k]),
                start.world.output.load() + held@.len() * n <= u32::MAX,
                self.state() == start.dispatch_held(held@, i as nat, now),
                self.input == old(self).input,
            decreases held@.len() - i,
        {
            proof {
                assert(i * n + n <= held@.len() * n) by (nonlinear_arith)
                    requires
                        i < held@.len(),
                ;
                start.lemma_dispatch_held(held@, i as nat, now, n);
            }
            proof {
                self.state().lemma_can_dispatch(held@[i as int], KeyStateChange::Held, n);
            }
            self.matrix_state_changed(held[i], KeyStateChange::Held, now);
            i += 1;
        }
    }

    /// Feeds one input event to the matrix and acts on what comes of it.
    fn feed(&mut self, e: InputEvent, now: Instant, Ghost(n): Ghost<nat>)
        requires
            old(self).wf(),
            e.spec_has_key_state(),
            n >= 1,
            old(self).state().demand_bound(n),
            old(self).state().world.output.load() + n <= u32::MAX,
        ensures
            final(self).matrix.wf(),
            final(self).state() == old(self).state().feed(e, now),
            final(self).input == old(self).input,
    {
        let ghost start = self.state();
        proof {
            self.matrix.lemma_view_wf();
            start.world.matrix.lemma_update(e, now);
            start.lemma_with_matrix(start.world.matrix.update(e, now).0);
        }
        match self.matrix.update(e, now) {
            // The key was within the matrix - store the update for later.
            MatrixUpdateResult::Bypass => {
                self.output.send_bypass_buffer(e);
            },
            MatrixUpdateResult::Redundant(_idx) => {},
            MatrixUpdateResult::StateChanged(idx, state) => {
                proof {
                    self.state().lemma_can_dispatch(idx, state, n);
                }
                self.matrix_state_changed(idx, state, now);
            },
            MatrixUpdateResult::Blocked => {},
        }
    }

    /// Feeds the input events in their order.
    fn feed_all(&mut self, events: &Vec<InputEvent>, now: Instant, Ghost(n): Ghost<nat>)
        requires
            old(self).wf(),
            all_key_states(events@),
            n >= 1,
            old(self).state().demand_bound(n),
            old(self).state().world.output.load() + events@.len() * n <= u32::MAX,
        ensures
            final(self).matrix.wf(),
            final(self).state() == old(self).state().feed_all(events@, events@.len(), now),
            final(self).input == old(self).input,
    {
        let ghost start = self.state();
        let mut j: usize = 0;
        while j < events.len()
            invariant
                j <= events@.len(),
                all_key_states(events@),
                self.matrix.wf(),
                n >= 1,
                start.wf(),
                start.demand_bound(n),
                start.world.output.load() + events@.len() * n <= u32::MAX,
                self.state() == start.feed_all(events@, j as nat, now),
                self.input == old(self).input,
            decreases events@.len() - j,
        {
            proof {
                assert(j * n + n <= events@.len() * n) by (nonlinear_arith)
                    requires
                        j < events@.len(),
                ;
                start.lemma_feed_all(events@, j as nat, now, n);
            }
            self.feed(events[j], now, Ghost(n));
            j += 1;
        }
    }

    /// Run one tick at the time `now`: dispatch a hold for each held key, feed
    /// the pending input to the matrix, and check the scheduled layer events.
    pub fn clock_tick(&mut self, now: Instant)
        requires
            old(self).wf(),
            old(self).input.model().wf(),
            old(self).can_count(old(self).input.model().pending.len()),
        ensures
            final(self).wf(),
            final(self).state() == old(self).state().tick(now, old(self).input.model().pending),
            final(self).input.model() == old(self).input.model().read(),
            old(self).state().world.output.emitted.is_prefix_of(
                final(self).state().world.output.emitted,
            ),
            all_key_states(final(self).state().world.output.emitted),
    {
        let ghost start = self.state();
        let ghost pending = self.input.model().pending;
        let ghost cells = (self.matrix@.dim.0 * self.matrix@.dim.1) as nat;
        let ghost n = choose|n: nat|
            n >= 1 && #[trigger] start.demand_bound(n) && start.world.output.load() + (cells
                + pending.len()) * n <= u32::MAX;
        proof {
            self.matrix.lemma_view_wf();
            start.world.matrix.lemma_detect_held_keys(now);
            start.lemma_with_matrix(start.world.matrix.detect_held_keys(now).0);
        }

        // Check for any keys that have been held down and oppressed by the user.
        let held = self.matrix.detect_held_keys(now);
        let ghost scanned = self.state();
        proof {
            assert(held@.len() * n + pending.len() * n <= (cells + pending.len()) * n)
                by (nonlinear_arith)
                requires
                    held@.len() <= cells,
            ;
            scanned.lemma_dispatch_held(held@, held@.len(), now, n);
        }
        self.dispatch_held(&held, now, Ghost(n));
        let ghost dispatched = self.state();

        // Handle every event coming in from the input device.
        let events = self.input.read_events();
        proof {
            dispatched.lemma_feed_all(pending, pending.len(), now, n);
        }
        self.feed_all(&events, now, Ghost(n));
        let ghost fed = self.state();
        proof {
            fed.lemma_check_callbacks();
            start.lemma_steps_on(scanned, dispatched, 0, (held@.len() * n) as nat);
            start.lemma_steps_on(dispatched, fed, (held@.len() * n) as nat, (pending.len() * n) as nat);
        }

        // Check if any layer event callbacks need to be processed.
        self.layer_attributes.check_event_callbacks(self.output.get_stats());
    }
}

} // verus!
