use crate::input_event::{InputEvent, EV_KEY};
use crate::output_keyboard::{all_key_states, count_of};
use crate::virtual_keyboard_matrix::{KeyStateChange, KeyStats};
use vstd::prelude::*;

verus! {

/// An input keyboard as a mathematical value.
#[verifier::ext_equal]
pub struct InputState {
    /// The events that the next read returns, oldest first.
    pub pending: Seq<InputEvent>,
    /// How many events of each kind have been read.
    pub stats: KeyStats,
}

impl InputState {
    /// Every pending event is a key event with one of the three key state
    /// changes, and the counts can take all of them.
    pub open spec fn wf(self) -> bool {
        &&& all_key_states(self.pending)
        &&& forall|i: int|
            0 <= i < self.pending.len() ==> (#[trigger] self.pending[i]).event_type == EV_KEY
        &&& forall|k: KeyStateChange| #[trigger]
            self.stats.spec_get(k) + count_of(self.pending, self.pending.len(), k) <= u32::MAX
    }

    /// The counts after the first `n` pending events have been counted.
    pub open spec fn counted(self, n: nat) -> KeyStats
        decreases n,
    {
        if n == 0 {
            self.stats
        } else {
            let before = self.counted((n - 1) as nat);
            let k = self.pending[n - 1].key_state();
            before.with(k, (before.spec_get(k) + 1) as u32)
        }
    }

    /// The keyboard after a read: nothing is pending, and every event that
    /// was is counted.
    pub open spec fn read(self) -> InputState {
        InputState { pending: Seq::empty(), stats: self.counted(self.pending.len()) }
    }

    /// Counting the first `n` pending events raises each count by the
    /// number of them that are of its kind.
    pub proof fn lemma_counted(self, n: nat)
        requires
            self.wf(),
            n <= self.pending.len(),
        ensures
            forall|k: KeyStateChange| #[trigger]
                self.counted(n).spec_get(k) == self.stats.spec_get(k) + count_of(
                    self.pending,
                    n,
                    k,
                ),
        decreases n,
    {
        if n > 0 {
            self.lemma_counted((n - 1) as nat);
            lemma_count_of_grows(self.pending, (n - 1) as nat, self.pending.len());
            assert(self.pending[n - 1].spec_has_key_state());
            let before = self.counted((n - 1) as nat);
            let kind = self.pending[n - 1].key_state();
            lemma_count_of_grows(self.pending, n, self.pending.len());
            assert(before.spec_get(kind) == self.stats.spec_get(kind) + count_of(
                self.pending,
                (n - 1) as nat,
                kind,
            ));
            assert(count_of(self.pending, n, kind) <= count_of(
                self.pending,
                self.pending.len(),
                kind,
            ));
            assert(self.stats.spec_get(kind) + count_of(self.pending, self.pending.len(), kind)
                <= u32::MAX);
            assert forall|k: KeyStateChange| #[trigger]
                self.counted(n).spec_get(k) == self.stats.spec_get(k) + count_of(
                    self.pending,
                    n,
                    k,
                ) by {
                assert(before.spec_get(k) == self.stats.spec_get(k) + count_of(
                    self.pending,
                    (n - 1) as nat,
                    k,
                ));
            }
        }
    }
}

/// Among more events there are not fewer of a kind.
pub proof fn lemma_count_of_grows(events: Seq<InputEvent>, n: nat, m: nat)
    requires
        n <= m,
    ensures
        forall|k: KeyStateChange| #[trigger] count_of(events, n, k) <= count_of(events, m, k),
    decreases m,
{
    if n < m {
        lemma_count_of_grows(events, n, (m - 1) as nat);
    }
}

/// An interface for keyboards that receive input events.
pub trait InputKeyboard {
    /// The keyboard as a mathematical value.
    spec fn model(&self) -> InputState;

    /// Read events from the input device (non-blocking).
    fn read_events(&mut self) -> (events: Vec<InputEvent>)
        requires
            old(self).model().wf(),
        ensures
            events@ == old(self).model().pending,
            final(self).model() == old(self).model().read(),
    ;

    /// Get statistics on the type of events that have been read.
    fn get_stats(&self) -> (stats: KeyStats)
        ensures
            stats == self.model().stats,
    ;
}

} // verus!
