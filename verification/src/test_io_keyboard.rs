use crate::input_event::{InputEvent, EV_KEY};
use crate::input_keyboard::{lemma_count_of_grows, InputKeyboard, InputState};
use crate::output_keyboard::{
    all_key_states, carry_key_states, count_of, lemma_count_of_total, BufferState, EventBuffer,
    OutputKeyboard, OutputState,
};
use crate::virtual_keyboard_matrix::{KeyStateChange, KeyStats};
use vstd::prelude::*;

verus! {

/// A keyboard that implements the input keyboard traits.
/// Used for testing keys and observing side effects.
pub struct TestInputKeyboard {
    pub events: Vec<InputEvent>,
    pub stats: KeyStats,
}

impl TestInputKeyboard {
    /// A keyboard without pending events, which has counted nothing.
    pub fn new() -> (k: TestInputKeyboard)
        ensures
            k.model() == (InputState { pending: Seq::empty(), stats: KeyStats::zero() }),
    {
        TestInputKeyboard { events: Vec::new(), stats: KeyStats::new() }
    }
}

impl TestInputKeyboard {
    /// Tells whether the pending events can be read: each is a key event
    /// with one of the three key state changes, and the counts can take them.
    pub fn can_read(&self) -> (ok: bool)
        ensures
            ok == self.model().wf(),
    {
        let ghost pending = self.events@;
        let mut released: usize = 0;
        let mut pressed: usize = 0;
        let mut held: usize = 0;
        let mut i: usize = 0;
        while i < self.events.len()
            invariant
                i <= self.events@.len(),
                pending == self.events@,
                forall|k: int| 0 <= k < i ==> (#[trigger] pending[k]).spec_has_key_state(),
                forall|k: int| 0 <= k < i ==> (#[trigger] pending[k]).event_type == EV_KEY,
                released == count_of(pending, i as nat, KeyStateChange::Released),
                pressed == count_of(pending, i as nat, KeyStateChange::Pressed),
                held == count_of(pending, i as nat, KeyStateChange::Held),
                released <= i,
                pressed <= i,
                held <= i,
            decreases self.events@.len() - i,
        {
            let e = &self.events[i];
            if !e.has_key_state() || e.event_type != EV_KEY {
                return false;
            }
            match KeyStateChange::from_value(e.value) {
                KeyStateChange::Released => {
                    released += 1;
                },
                KeyStateChange::Pressed => {
                    pressed += 1;
                },
                KeyStateChange::Held => {
                    held += 1;
                },
            }
            i += 1;
        }
        let fits = released as u128 + self.stats.released as u128 <= u32::MAX as u128
            && pressed as u128 + self.stats.pressed as u128 <= u32::MAX as u128 && held as u128
            + self.stats.held as u128 <= u32::MAX as u128;
        proof {
            let m = self.model();
            if fits {
                assert forall|k: KeyStateChange| #[trigger]
                    m.stats.spec_get(k) + count_of(m.pending, m.pending.len(), k)
                        <= u32::MAX by {}
            } else {
                if released + self.stats.released > u32::MAX {
                    assert(m.stats.spec_get(KeyStateChange::Released) + count_of(
                        m.pending,
                        m.pending.len(),
                        KeyStateChange::Released,
                    ) > u32::MAX);
                } else if pressed + self.stats.pressed > u32::MAX {
                    assert(m.stats.spec_get(KeyStateChange::Pressed) + count_of(
                        m.pending,
                        m.pending.len(),
                        KeyStateChange::Pressed,
                    ) > u32::MAX);
                } else {
                    assert(m.stats.spec_get(KeyStateChange::Held) + count_of(
                        m.pending,
                        m.pending.len(),
                        KeyStateChange::Held,
                    ) > u32::MAX);
                }
            }
        }
        fits
    }
}

impl InputKeyboard for TestInputKeyboard {
    open spec fn model(&self) -> InputState {
        InputState { pending: self.events@, stats: self.stats }
    }

    fn read_events(&mut self) -> (events: Vec<InputEvent>) {
        let mut ans: Vec<InputEvent> = Vec::new();
        core::mem::swap(&mut ans, &mut self.events);
        let ghost start = old(self).model();
        let mut i: usize = 0;
        while i < ans.len()
            invariant
                i <= ans@.len(),
                ans@ == start.pending,
                start.wf(),
                self.stats == start.counted(i as nat),
                self.events@ == Seq::<InputEvent>::empty(),
            decreases ans@.len() - i,
        {
            proof {
                let kind = start.pending[i as int].key_state();
                start.lemma_counted(i as nat);
                lemma_count_of_grows(
                    start.pending,
                    (i + 1) as nat,
                    start.pending.len(),
                );
                assert(start.counted(i as nat).spec_get(kind) == start.stats.spec_get(kind)
                    + count_of(start.pending, i as nat, kind));
                assert(count_of(start.pending, (i + 1) as nat, kind) <= count_of(
                    start.pending,
                    start.pending.len(),
                    kind,
                ));
                assert(start.stats.spec_get(kind) + count_of(
                    start.pending,
                    start.pending.len(),
                    kind,
                ) <= u32::MAX);
                assert(start.pending[i as int].spec_has_key_state());
            }
            self.stats.increment(KeyStateChange::from_value(ans[i].value));
            i += 1;
        }
        ans
    }

    fn get_stats(&self) -> (stats: KeyStats) {
        self.stats
    }
}

/// A keyboard that implements the output keyboard traits.
/// Used for testing keys and observing side effects.
pub struct TestOutputKeyboard {
    pub events: Vec<InputEvent>,
    pub stats: KeyStats,
    pub buffer: EventBuffer,
}

impl TestOutputKeyboard {
    /// A keyboard that has sent nothing, and holds nothing back.
    pub fn new() -> (k: TestOutputKeyboard)
        ensures
            k.model().wf(),
            k.model().emitted == Seq::<InputEvent>::empty(),
            k.model().stats == KeyStats::zero(),
            k.model().buffer == BufferState::immediate(),
    {
        TestOutputKeyboard {
            events: Vec::new(),
            stats: KeyStats::new(),
            buffer: EventBuffer::new(),
        }
    }

    /// Tells whether the keyboard is well-formed.
    pub fn is_well_formed(&self) -> (ok: bool)
        ensures
            ok == self.model().wf(),
    {
        self.buffer.is_well_formed() && self.buffer.holds_key_states() && carry_key_states(
            &self.events,
        )
    }

    /// The highest of the three counts plus the number of events that wait.
    pub fn load(&self) -> (n: u128)
        ensures
            n == self.model().load(),
    {
        let a = self.stats.released;
        let b = self.stats.pressed;
        let c = self.stats.held;
        let top = if a >= b && a >= c {
            a
        } else if b >= c {
            b
        } else {
            c
        };
        top as u128 + self.buffer.len() as u128
    }

    /// Counts the event and lets it leave.
    fn send_unbuffered(&mut self, e: InputEvent)
        requires
            e.spec_has_key_state(),
            old(self).stats.spec_get(e.key_state()) < u32::MAX,
        ensures
            final(self).model() == old(self).model().send_unbuffered(e),
    {
        self.stats.increment(KeyStateChange::from_value(e.value));
        self.events.push(e);
    }
}

impl OutputKeyboard for TestOutputKeyboard {
    open spec fn model(&self) -> OutputState {
        OutputState { emitted: self.events@, stats: self.stats, buffer: self.buffer@ }
    }

    fn send_override(&mut self, e: InputEvent, bypass_buffer: bool) {
        if bypass_buffer {
            self.send_unbuffered(e);
        } else {
            // Add the item to the buffer, then send any items that the buffer returned.
            let out = self.buffer.add(e);
            let ghost start = self.model();
            let mut i: usize = 0;
            while i < out.len()
                invariant
                    i <= out@.len(),
                    all_key_states(out@),
                    all_key_states(start.emitted),
                    start.load() - start.buffer.queue.len() + out@.len() <= u32::MAX,
                    self.model() == start.send_all(out@, i as nat),
                decreases out@.len() - i,
            {
                proof {
                    start.lemma_send_all(out@, i as nat);
                    lemma_count_of_total(out@, i as nat);
                }
                self.send_unbuffered(out[i]);
                i += 1;
            }
        }
    }

    fn set_buffer(&mut self, buffer: EventBuffer) {
        self.buffer = buffer;
    }

    fn get_stats(&self) -> (stats: KeyStats) {
        self.stats
    }
}

} // verus!
