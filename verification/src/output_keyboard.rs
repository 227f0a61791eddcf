use crate::input_event::InputEvent;
use crate::virtual_keyboard_matrix::{KeyStateChange, KeyStats};
use vstd::prelude::*;

verus! {

/// The policy that governs when keys are sent out of the buffer.
#[derive(Clone, Copy, PartialEq, Eq, Structural, Debug)]
pub enum BufferSendKeysWhen {
    /// Send keys immediately - no buffering.
    Immediately,
    /// Send keys when the buffer is full.
    BufferFull,
}

/// The buffering policy to use after keys have been sent.
#[derive(Clone, Copy, PartialEq, Eq, Structural, Debug)]
pub enum BufferAfterSendingKeys {
    /// Stop buffering after keys are sent.
    StopBuffering,
}

/// An event buffer as a mathematical value.
#[verifier::ext_equal]
pub struct BufferState {
    /// The events that wait, oldest first.
    pub queue: Seq<InputEvent>,
    /// The number of events at which the buffer is full.
    pub capacity: nat,
    /// When the events leave.
    pub send_keys_policy: BufferSendKeysWhen,
    /// What becomes of the buffer once they have left.
    pub post_send_policy: BufferAfterSendingKeys,
}

impl BufferState {
    /// A buffer that passes events on at once holds none; one that waits
    /// until it is full is not full yet.
    pub open spec fn wf(self) -> bool {
        match self.send_keys_policy {
            BufferSendKeysWhen::Immediately => self.queue.len() == 0,
            BufferSendKeysWhen::BufferFull => self.queue.len() < self.capacity,
        }
    }

    /// The buffer that holds nothing back.
    pub open spec fn immediate() -> BufferState {
        BufferState {
            queue: Seq::empty(),
            capacity: 0,
            send_keys_policy: BufferSendKeysWhen::Immediately,
            post_send_policy: BufferAfterSendingKeys::StopBuffering,
        }
    }

    /// The empty buffer that waits for two events, releases both, and then
    /// holds nothing back any more.
    pub open spec fn spacecadet() -> BufferState {
        BufferState {
            queue: Seq::empty(),
            capacity: 2,
            send_keys_policy: BufferSendKeysWhen::BufferFull,
            post_send_policy: BufferAfterSendingKeys::StopBuffering,
        }
    }

    /// The buffer after `e` was added to it, and the events that leave it on
    /// that account, oldest first.
    pub open spec fn add(self, e: InputEvent) -> (BufferState, Seq<InputEvent>) {
        match self.send_keys_policy {
            BufferSendKeysWhen::Immediately => (self, seq![e]),
            BufferSendKeysWhen::BufferFull => {
                if self.queue.len() + 1 == self.capacity {
                    (BufferState::immediate(), self.queue.push(e))
                } else {
                    (BufferState { queue: self.queue.push(e), ..self }, Seq::empty())
                }
            },
        }
    }
}

/// A simple buffer of `InputEvent` with policies for what to do
/// when the buffer is full and keys are sent.
pub struct EventBuffer {
    buffer: Vec<InputEvent>,
    capacity: usize,
    send_keys_policy: BufferSendKeysWhen,
    post_send_policy: BufferAfterSendingKeys,
}

impl View for EventBuffer {
    type V = BufferState;

    closed spec fn view(&self) -> BufferState {
        BufferState {
            queue: self.buffer@,
            capacity: self.capacity as nat,
            send_keys_policy: self.send_keys_policy,
            post_send_policy: self.post_send_policy,
        }
    }
}

impl EventBuffer {
    /// Create a new event buffer with size zero (no buffering).
    pub fn new() -> (b: EventBuffer)
        ensures
            b@ == BufferState::immediate(),
    {
        EventBuffer {
            buffer: Vec::new(),
            capacity: 0,
            send_keys_policy: BufferSendKeysWhen::Immediately,
            post_send_policy: BufferAfterSendingKeys::StopBuffering,
        }
    }

    /// Create a new event buffer intended to be used in conjunction with spacecadet keys.
    pub fn new_spacecadet() -> (b: EventBuffer)
        ensures
            b@ == BufferState::spacecadet(),
    {
        EventBuffer {
            buffer: Vec::new(),
            capacity: 2,
            send_keys_policy: BufferSendKeysWhen::BufferFull,
            post_send_policy: BufferAfterSendingKeys::StopBuffering,
        }
    }

    /// Add an `InputEvent` to the buffer.
    pub fn add(&mut self, e: InputEvent) -> (out: Vec<InputEvent>)
        requires
            old(self)@.wf(),
        ensures
            (final(self)@, out@) == old(self)@.add(e),
            final(self)@.wf(),
    {
        match self.send_keys_policy {
            BufferSendKeysWhen::Immediately => {
                let mut ans: Vec<InputEvent> = Vec::new();
                ans.push(e);
                assert(ans@ =~= seq![e]);
                ans
            },
            BufferSendKeysWhen::BufferFull => {
                // Add the event onto the buffer.
                self.buffer.push(e);

                // If the buffer is full, we need to return events and
                // follow the post-send buffer policy.
                if self.is_full() {
                    let mut ans: Vec<InputEvent> = Vec::new();
                    core::mem::swap(&mut ans, &mut self.buffer);
                    match self.post_send_policy {
                        BufferAfterSendingKeys::StopBuffering => {
                            self.capacity = 0;
                            self.send_keys_policy = BufferSendKeysWhen::Immediately;
                        },
                    }
                    ans
                } else {
                    // The buffer isn't full, so don't return any keys.
                    Vec::new()
                }
            },
        }
    }

    /// The number of events that wait in the buffer.
    pub fn len(&self) -> (n: usize)
        ensures
            n == self@.queue.len(),
    {
        self.buffer.len()
    }

    /// Tells whether the buffer is well-formed.
    pub fn is_well_formed(&self) -> (ok: bool)
        ensures
            ok == self@.wf(),
    {
        match self.send_keys_policy {
            BufferSendKeysWhen::Immediately => self.buffer.len() == 0,
            BufferSendKeysWhen::BufferFull => self.buffer.len() < self.capacity,
        }
    }

    /// Tells whether each event that waits carries one of the three key state changes.
    pub fn holds_key_states(&self) -> (ok: bool)
        ensures
            ok == all_key_states(self@.queue),
    {
        carry_key_states(&self.buffer)
    }

    /// Tells whether as many events wait as the buffer takes.
    fn is_full(&self) -> (full: bool)
        ensures
            full == (self@.capacity == self@.queue.len()),
    {
        self.capacity == self.buffer.len()
    }
}

/// An output keyboard as a mathematical value.
#[verifier::ext_equal]
pub struct OutputState {
    /// Every event that has left for the system, oldest first.
    pub emitted: Seq<InputEvent>,
    /// How many events of each kind have left.
    pub stats: KeyStats,
    /// The buffer that events pass through.
    pub buffer: BufferState,
}

/// True when every event of `events` carries one of the three key state changes.
pub open spec fn all_key_states(events: Seq<InputEvent>) -> bool {
    forall|i: int| 0 <= i < events.len() ==> (#[trigger] events[i]).spec_has_key_state()
}

/// Tells whether every event of `events` carries one of the three key state changes.
pub fn carry_key_states(events: &Vec<InputEvent>) -> (ok: bool)
    ensures
        ok == all_key_states(events@),
{
    let mut i: usize = 0;
    while i < events.len()
        invariant
            i <= events@.len(),
            forall|k: int| 0 <= k < i ==> (#[trigger] events@[k]).spec_has_key_state(),
        decreases events@.len() - i,
    {
        if !events[i].has_key_state() {
            return false;
        }
        i += 1;
    }
    true
}

impl OutputState {
    /// The buffer is well-formed, and every event, gone or waiting, carries
    /// one of the three key state changes.
    pub open spec fn wf(self) -> bool {
        &&& self.buffer.wf()
        &&& all_key_states(self.buffer.queue)
        &&& all_key_states(self.emitted)
    }

    /// The highest of the three counts, plus the number of events that wait
    /// in the buffer: no count can get beyond this before the next `send`.
    pub open spec fn load(self) -> int {
        let a = self.stats.released as int;
        let b = self.stats.pressed as int;
        let c = self.stats.held as int;
        let top = if a >= b && a >= c {
            a
        } else if b >= c {
            b
        } else {
            c
        };
        top + self.buffer.queue.len()
    }

    /// The keyboard after `e` has left for the system: it is the latest of
    /// the emitted events, and the count of its kind is one higher.
    pub open spec fn send_unbuffered(self, e: InputEvent) -> OutputState {
        OutputState {
            emitted: self.emitted.push(e),
            stats: self.stats.with(e.key_state(), (self.stats.spec_get(e.key_state()) + 1) as u32),
            ..self
        }
    }

    /// The keyboard after the first `n` of `events` have left, in their order.
    pub open spec fn send_all(self, events: Seq<InputEvent>, n: nat) -> OutputState
        decreases n,
    {
        if n == 0 {
            self
        } else {
            self.send_all(events, (n - 1) as nat).send_unbuffered(events[n - 1])
        }
    }

    /// The keyboard after `e` was sent: past the buffer, or through it, in
    /// which case the events that the buffer lets go leave.
    pub open spec fn send_override(self, e: InputEvent, bypass_buffer: bool) -> OutputState {
        if bypass_buffer {
            self.send_unbuffered(e)
        } else {
            let (buffer, out) = self.buffer.add(e);
            (OutputState { buffer, ..self }).send_all(out, out.len())
        }
    }

    /// The keyboard after `e` was sent through the buffer.
    pub open spec fn send(self, e: InputEvent) -> OutputState {
        self.send_override(e, false)
    }

    /// The keyboard with `buffer` in place of its own, whose waiting events are lost.
    pub open spec fn set_buffer(self, buffer: BufferState) -> OutputState {
        OutputState { buffer, ..self }
    }

    /// Sending the first `n` of `events` one by one keeps the keyboard
    /// well-formed, appends just these events, raises each count by the
    /// number of them that are of its kind, and leaves the buffer alone.
    pub proof fn lemma_send_all(self, events: Seq<InputEvent>, n: nat)
        requires
            all_key_states(self.emitted),
            all_key_states(events),
            n <= events.len(),
            self.load() - self.buffer.queue.len() + n <= u32::MAX,
        ensures
            all_key_states(self.send_all(events, n).emitted),
            self.send_all(events, n).emitted == self.emitted + events.take(n as int),
            self.send_all(events, n).buffer == self.buffer,
            forall|k: KeyStateChange| #[trigger]
                self.send_all(events, n).stats.spec_get(k) == self.stats.spec_get(k) + count_of(
                    events,
                    n,
                    k,
                ),
            self.send_all(events, n).load() <= self.load() + n,
        decreases n,
    {
        if n > 0 {
            let before = self.send_all(events, (n - 1) as nat);
            self.lemma_send_all(events, (n - 1) as nat);
            lemma_count_of_total(events, (n - 1) as nat);
            let e = events[n - 1];
            let kind = e.key_state();
            let after = before.send_unbuffered(e);
            assert(e.spec_has_key_state());
            assert(before.emitted.push(e) =~= self.emitted + events.take(n as int));
            assert(before.stats.spec_get(kind) == self.stats.spec_get(kind) + count_of(
                events,
                (n - 1) as nat,
                kind,
            ));
            assert(count_of(events, (n - 1) as nat, kind) <= n - 1);
            assert(self.stats.spec_get(kind) <= self.load() - self.buffer.queue.len());
            assert forall|k: KeyStateChange| #[trigger]
                after.stats.spec_get(k) == self.stats.spec_get(k) + count_of(events, n, k) by {
                assert(before.stats.spec_get(k) == self.stats.spec_get(k) + count_of(
                    events,
                    (n - 1) as nat,
                    k,
                ));
            }
            lemma_count_of_total(events, n);
            assert(after.stats.spec_get(KeyStateChange::Released) == after.stats.released);
            assert(after.stats.spec_get(KeyStateChange::Pressed) == after.stats.pressed);
            assert(after.stats.spec_get(KeyStateChange::Held) == after.stats.held);
            assert(self.stats.spec_get(KeyStateChange::Released) == self.stats.released);
            assert(self.stats.spec_get(KeyStateChange::Pressed) == self.stats.pressed);
            assert(self.stats.spec_get(KeyStateChange::Held) == self.stats.held);
        } else {
            assert(self.emitted =~= self.emitted + events.take(0));
        }
    }

    /// True when every event, gone or waiting, carries one of the three
    /// key state changes.
    pub open spec fn carries_key_states(self) -> bool {
        all_key_states(self.emitted) && all_key_states(self.buffer.queue)
    }

    /// Events that carry key states still do so after more of them have
    /// left, whatever the counts are; the events that had left before are
    /// the first of those that have left now.
    pub proof fn lemma_send_all_key_states(self, events: Seq<InputEvent>, n: nat)
        requires
            all_key_states(self.emitted),
            all_key_states(events),
            n <= events.len(),
        ensures
            all_key_states(self.send_all(events, n).emitted),
            self.send_all(events, n).buffer == self.buffer,
            self.emitted.is_prefix_of(self.send_all(events, n).emitted),
        decreases n,
    {
        if n > 0 {
            self.lemma_send_all_key_states(events, (n - 1) as nat);
            assert(events[n - 1].spec_has_key_state());
        }
    }

    /// Every event that an output keyboard holds or has let go carries one
    /// of the three key state changes, if that was so before and is so of
    /// the event that is sent, whatever the counts are.
    pub proof fn lemma_send_key_states(self, e: InputEvent, bypass_buffer: bool)
        requires
            self.carries_key_states(),
            e.spec_has_key_state(),
        ensures
            self.send_override(e, bypass_buffer).carries_key_states(),
            self.emitted.is_prefix_of(self.send_override(e, bypass_buffer).emitted),
    {
        if bypass_buffer {
        } else {
            let (buffer, out) = self.buffer.add(e);
            let start = OutputState { buffer, ..self };
            assert(all_key_states(out)) by {
                assert forall|i: int| 0 <= i < out.len() implies (
                #[trigger] out[i]).spec_has_key_state() by {
                    if i < self.buffer.queue.len() {
                        assert(self.buffer.queue[i].spec_has_key_state());
                    }
                }
            }
            assert(all_key_states(buffer.queue)) by {
                assert forall|i: int| 0 <= i < buffer.queue.len() implies (
                #[trigger] buffer.queue[i]).spec_has_key_state() by {
                    if i < self.buffer.queue.len() {
                        assert(self.buffer.queue[i].spec_has_key_state());
                    }
                }
            }
            start.lemma_send_all_key_states(out, out.len());
        }
    }

    /// Where no more releases than presses have left, this is still so
    /// after one more event has left, unless that event is a release while
    /// as many releases as presses had left.
    pub proof fn lemma_releases_stay_behind(self, e: InputEvent)
        requires
            self.stats.released <= self.stats.pressed,
            e.spec_has_key_state(),
            self.stats.spec_get(e.key_state()) < u32::MAX,
            !(e.key_state() == KeyStateChange::Released && self.stats.released
                == self.stats.pressed),
        ensures
            self.send_unbuffered(e).stats.released <= self.send_unbuffered(e).stats.pressed,
    {
    }

    /// A keyboard that can count one event more is well-formed after a
    /// `send`, and its load has grown by one at most.
    pub proof fn lemma_send_override(self, e: InputEvent, bypass_buffer: bool)
        requires
            self.wf(),
            e.spec_has_key_state(),
            self.load() < u32::MAX,
        ensures
            self.send_override(e, bypass_buffer).wf(),
            self.send_override(e, bypass_buffer).load() <= self.load() + 1,
            self.emitted.is_prefix_of(self.send_override(e, bypass_buffer).emitted),
    {
        if bypass_buffer {
            assert(seq![e][0] == e);
            self.lemma_send_all(seq![e], 1);
            assert(self.send_all(seq![e], 0) == self);
            assert(self.send_all(seq![e], 1) == self.send_unbuffered(e));
            assert(self.emitted + seq![e].take(1) =~= self.emitted.push(e));
        } else {
            let (buffer, out) = self.buffer.add(e);
            let start = OutputState { buffer, ..self };
            start.lemma_send_all(out, out.len());
        }
    }
}

/// How many of the first `n` of `events` carry the state change `k`.
pub open spec fn count_of(events: Seq<InputEvent>, n: nat, k: KeyStateChange) -> nat
    decreases n,
{
    if n == 0 {
        0
    } else {
        count_of(events, (n - 1) as nat, k) + if events[n - 1].key_state() == k {
            1nat
        } else {
            0nat
        }
    }
}

/// Each of the first `n` events is counted under one kind, so no kind is
/// counted more than `n` times.
pub proof fn lemma_count_of_total(events: Seq<InputEvent>, n: nat)
    ensures
        count_of(events, n, KeyStateChange::Released) + count_of(events, n, KeyStateChange::Pressed)
            + count_of(events, n, KeyStateChange::Held) == n,
    decreases n,
{
    if n > 0 {
        lemma_count_of_total(events, (n - 1) as nat);
    }
}

/// An interface for output keyboards (e.g. sending events to OS).
pub trait OutputKeyboard {
    /// The keyboard as a mathematical value.
    spec fn model(&self) -> OutputState;

    /// Send an event and specify the buffer policy.
    fn send_override(&mut self, e: InputEvent, bypass_buffer: bool)
        requires
            old(self).model().wf(),
            e.spec_has_key_state(),
            old(self).model().load() < u32::MAX,
        ensures
            final(self).model() == old(self).model().send_override(e, bypass_buffer),
    ;

    /// Set a buffer object that captures events before passing them to the OS.
    fn set_buffer(&mut self, buffer: EventBuffer)
        ensures
            final(self).model() == old(self).model().set_buffer(buffer@),
    ;

    /// Get statistics on the type of events that have been written.
    fn get_stats(&self) -> (stats: KeyStats)
        ensures
            stats == self.model().stats,
    ;

    /// Send an event that can't be buffered (i.e. immediately passed to OS).
    fn send_bypass_buffer(&mut self, e: InputEvent)
        requires
            old(self).model().wf(),
            e.spec_has_key_state(),
            old(self).model().load() < u32::MAX,
        ensures
            final(self).model() == old(self).model().send_override(e, true),
    {
        self.send_override(e, true);
    }

    /// Send an event that can be buffered.
    fn send(&mut self, e: InputEvent)
        requires
            old(self).model().wf(),
            e.spec_has_key_state(),
            old(self).model().load() < u32::MAX,
        ensures
            final(self).model() == old(self).model().send(e),
    {
        self.send_override(e, false);
    }
}

} // verus!
