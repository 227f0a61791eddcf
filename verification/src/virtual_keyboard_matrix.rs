use crate::input_event::{InputEvent, SimpleKey};
use crate::time::{Duration, Instant};
use std::collections::HashMap;
use vstd::prelude::*;

verus! {

broadcast use vstd::std_specs::hash::group_hash_axioms;

/// A MxN matrix of key codes. None can be used to encode matrix
/// positions without keys.
pub type KeyMatrix = Vec<Vec<Option<SimpleKey>>>;

/// Simple (row, column) index.
pub type Index2D = (usize, usize);

/// A key can undergo three state changes: `Pressed`, `Released`, or `Held`.
#[derive(Clone, Copy, PartialEq, Eq, Structural, Hash, Debug)]
pub enum KeyStateChange {
    Released,
    Pressed,
    Held,
}

impl KeyStateChange {
    /// The number that stands for the change in the `value` of an event:
    /// 0 released, 1 pressed, 2 held.
    pub open spec fn value(self) -> int {
        match self {
            KeyStateChange::Released => 0,
            KeyStateChange::Pressed => 1,
            KeyStateChange::Held => 2,
        }
    }

    /// The change that `v` stands for; `Held` for every number but 0 and 1.
    pub open spec fn of_value(v: int) -> KeyStateChange {
        if v == 0 {
            KeyStateChange::Released
        } else if v == 1 {
            KeyStateChange::Pressed
        } else {
            KeyStateChange::Held
        }
    }

    /// The number that stands for the change in the `value` of an event.
    pub fn as_value(self) -> (v: i32)
        ensures
            v == self.value(),
    {
        match self {
            KeyStateChange::Released => 0,
            KeyStateChange::Pressed => 1,
            KeyStateChange::Held => 2,
        }
    }

    /// The change that an event's `value` stands for.
    pub fn from_value(v: i32) -> (change: KeyStateChange)
        requires
            0 <= v <= 2,
        ensures
            change.value() == v,
            change == KeyStateChange::of_value(v as int),
    {
        if v == 0 {
            KeyStateChange::Released
        } else if v == 1 {
            KeyStateChange::Pressed
        } else {
            KeyStateChange::Held
        }
    }
}

/// Plain-old-data struct that stores counts for each key state change
/// (e.g. 32 key presses).
#[derive(Clone, Copy, PartialEq, Eq, Structural, Debug)]
pub struct KeyStats {
    pub released: u32,
    pub pressed: u32,
    pub held: u32,
}

impl KeyStats {
    /// The number of times that `v` was seen.
    pub open spec fn spec_get(&self, v: KeyStateChange) -> u32 {
        match v {
            KeyStateChange::Released => self.released,
            KeyStateChange::Pressed => self.pressed,
            KeyStateChange::Held => self.held,
        }
    }

    /// The same counts, but for `v`, which is counted `n` times.
    pub open spec fn with(self, v: KeyStateChange, n: u32) -> KeyStats {
        match v {
            KeyStateChange::Released => KeyStats { released: n, ..self },
            KeyStateChange::Pressed => KeyStats { pressed: n, ..self },
            KeyStateChange::Held => KeyStats { held: n, ..self },
        }
    }

    /// The number of state changes seen, of all three kinds together.
    pub open spec fn total(&self) -> int {
        self.released + self.pressed + self.held
    }

    /// The counts before anything was seen.
    pub open spec fn zero() -> KeyStats {
        KeyStats { released: 0, pressed: 0, held: 0 }
    }

    /// Create new key statistics initialized to zero.
    pub fn new() -> (stats: KeyStats)
        ensures
            stats == KeyStats::zero(),
    {
        KeyStats { released: 0, pressed: 0, held: 0 }
    }

    /// Increment the number of times a particular state change was seen.
    pub fn increment(&mut self, v: KeyStateChange)
        requires
            old(self).spec_get(v) < u32::MAX,
        ensures
            *final(self) == old(self).with(v, (old(self).spec_get(v) + 1) as u32),
    {
        match v {
            KeyStateChange::Released => { self.released = self.released + 1; },
            KeyStateChange::Pressed => { self.pressed = self.pressed + 1; },
            KeyStateChange::Held => { self.held = self.held + 1; },
        }
    }

    /// Get the number of times a state change was seen.
    #[verifier::when_used_as_spec(spec_get)]
    pub fn get(&self, v: KeyStateChange) -> (n: u32)
        ensures
            n == self.spec_get(v),
    {
        match v {
            KeyStateChange::Released => self.released,
            KeyStateChange::Pressed => self.pressed,
            KeyStateChange::Held => self.held,
        }
    }

    /// Set the number of times a state change was seen.
    pub fn set(&mut self, v: KeyStateChange, i: u32)
        ensures
            *final(self) == old(self).with(v, i),
    {
        match v {
            KeyStateChange::Released => { self.released = i; },
            KeyStateChange::Pressed => { self.pressed = i; },
            KeyStateChange::Held => { self.held = i; },
        }
    }
}

/// The state changes of one cell that are held back for the time being.
#[derive(Clone, Copy, PartialEq, Eq, Structural, Debug)]
pub struct BlockedKeyStates {
    pub released: bool,
    pub pressed: bool,
    pub held: bool,
}

impl BlockedKeyStates {
    /// True when the state change `s` is held back.
    pub open spec fn blocks(&self, s: KeyStateChange) -> bool {
        match s {
            KeyStateChange::Released => self.released,
            KeyStateChange::Pressed => self.pressed,
            KeyStateChange::Held => self.held,
        }
    }

    /// The block that holds nothing back.
    pub open spec fn none() -> BlockedKeyStates {
        BlockedKeyStates { released: false, pressed: false, held: false }
    }

    /// The block that holds back releases and holds, and lets presses through.
    pub open spec fn release_and_hold() -> BlockedKeyStates {
        BlockedKeyStates { released: true, pressed: false, held: true }
    }

    /// The block as it stands after the state change `s` has met it: a held
    /// key is held back time and again, while a press or a release that was
    /// held back takes all three blocks away.
    pub open spec fn after(self, s: KeyStateChange) -> BlockedKeyStates {
        if self.blocks(s) && s != KeyStateChange::Held {
            BlockedKeyStates::none()
        } else {
            self
        }
    }

    /// Create a new block that doesn't block any key state changes.
    pub fn new() -> (block: BlockedKeyStates)
        ensures
            block == BlockedKeyStates::none(),
    {
        BlockedKeyStates { released: false, pressed: false, held: false }
    }

    /// Create a new block for key releases and holds.
    pub fn new_block_release_and_hold() -> (block: BlockedKeyStates)
        ensures
            block == BlockedKeyStates::release_and_hold(),
    {
        let mut ans = BlockedKeyStates::new();
        ans.released = true;
        ans.held = true;
        ans
    }

    /// Returns `true` if a key state change is blocked.
    pub fn check_if_blocked(&mut self, s: KeyStateChange) -> (blocked: bool)
        ensures
            blocked == old(self).blocks(s),
            *final(self) == old(self).after(s),
    {
        let hit = match s {
            KeyStateChange::Released => self.released,
            KeyStateChange::Pressed => self.pressed,
            KeyStateChange::Held => self.held,
        };
        if hit {
            match s {
                KeyStateChange::Held => {
                    // Multiple holds are blocked.
                },
                _ => {
                    // Presses and releases are only blocked once
                    // before all blocks are turned off.
                    self.unblock();
                },
            }
        }
        hit
    }

    /// Unblock all key state changes.
    pub fn unblock(&mut self)
        ensures
            *final(self) == BlockedKeyStates::none(),
    {
        self.released = false;
        self.pressed = false;
        self.held = false;
    }
}

/// Return states from after updating `VirtualKeyboardMatrix`.
#[derive(Clone, Copy, PartialEq, Debug)]
pub enum MatrixUpdateResult {
    /// The given event wasn't within the matrix.
    Bypass,
    /// The event was redundant (e.g. pressing a pressed key).
    Redundant(Index2D),
    /// The event caused a state to change at the given index.
    StateChanged(Index2D, KeyStateChange),
    /// The event caused a state change, but it was blocked.
    Blocked,
}

/// What becomes of a cell that was pressed or not (`was`) when an event says
/// that it now is or is not (`is`): nothing where the two agree.
pub open spec fn transition(was: bool, is: bool) -> Option<KeyStateChange> {
    if was == is {
        None
    } else if is {
        Some(KeyStateChange::Pressed)
    } else {
        Some(KeyStateChange::Released)
    }
}

/// A 2D matrix that records where and when key presses occurred.
pub struct StateMatrix {
    state: Vec<Vec<bool>>,
    last_pressed: Vec<Vec<Instant>>,
}

impl StateMatrix {
    /// Both tables have the same shape.
    pub closed spec fn wf(&self) -> bool {
        &&& self.state@.len() == self.last_pressed@.len()
        &&& forall|r: int|
            0 <= r < self.state@.len() ==> #[trigger] self.state@[r]@.len()
                == self.last_pressed@[r]@.len()
    }

    /// True when the matrix has a cell at `idx`.
    pub closed spec fn contains(&self, idx: Index2D) -> bool {
        idx.0 < self.state@.len() && idx.1 < self.state@[idx.0 as int]@.len()
    }

    /// True when the key at `idx` is down.
    pub closed spec fn is_pressed(&self, idx: Index2D) -> bool {
        self.state@[idx.0 as int]@[idx.1 as int]
    }

    /// When the key at `idx` last went down, or when that time was last reset.
    pub closed spec fn last_pressed_at(&self, idx: Index2D) -> Instant {
        self.last_pressed@[idx.0 as int]@[idx.1 as int]
    }

    /// True when the key at `idx` is down and has been for `hold_threshold`.
    pub open spec fn held(&self, idx: Index2D, hold_threshold: Duration, now: Instant) -> bool {
        self.is_pressed(idx) && now.reached(self.last_pressed_at(idx), hold_threshold)
    }

    /// Create a new state NxM state matrix with every key unpressed.
    pub fn new(dim: Index2D) -> (m: StateMatrix)
        ensures
            m.wf(),
            forall|idx: Index2D| #[trigger] m.contains(idx) <==> idx.0 < dim.0 && idx.1 < dim.1,
            forall|idx: Index2D| #[trigger] m.contains(idx) ==> !m.is_pressed(idx),
            forall|idx: Index2D| #[trigger]
                m.contains(idx) ==> m.last_pressed_at(idx) == (Instant { nanos: 0 }),
    {
        let mut state: Vec<Vec<bool>> = Vec::new();
        let mut last_pressed: Vec<Vec<Instant>> = Vec::new();
        let mut r: usize = 0;
        while r < dim.0
            invariant
                r <= dim.0,
                state@.len() == r,
                last_pressed@.len() == r,
                forall|i: int| 0 <= i < r ==> (#[trigger] state@[i])@.len() == dim.1,
                forall|i: int| 0 <= i < r ==> (#[trigger] last_pressed@[i])@.len() == dim.1,
                forall|i: int, j: int| 0 <= i < r && 0 <= j < dim.1 ==> !(#[trigger] state@[i]@[j]),
                forall|i: int, j: int|
                    0 <= i < r && 0 <= j < dim.1 ==> (#[trigger] last_pressed@[i]@[j]) == (Instant {
                        nanos: 0,
                    }),
            decreases dim.0 - r,
        {
            let mut row: Vec<bool> = Vec::new();
            let mut times: Vec<Instant> = Vec::new();
            let mut c: usize = 0;
            while c < dim.1
                invariant
                    c <= dim.1,
                    row@.len() == c,
                    times@.len() == c,
                    forall|j: int| 0 <= j < c ==> !(#[trigger] row@[j]),
                    forall|j: int| 0 <= j < c ==> (#[trigger] times@[j]) == (Instant { nanos: 0 }),
                decreases dim.1 - c,
            {
                row.push(false);
                times.push(Instant { nanos: 0 });
                c += 1;
            }
            state.push(row);
            last_pressed.push(times);
            r += 1;
        }
        StateMatrix { state, last_pressed }
    }

    /// Set a key's binary state (i.e. is it pressed or not).
    ///
    /// If the key's state changed (e.g. pressed -> released), then
    /// Some() is returned.
    pub fn set(&mut self, dim: Index2D, is_pressed: bool, now: Instant) -> (change: Option<
        KeyStateChange,
    >)
        requires
            old(self).wf(),
            old(self).contains(dim),
        ensures
            final(self).wf(),
            forall|idx: Index2D| #[trigger] final(self).contains(idx) == old(self).contains(idx),
            change == transition(old(self).is_pressed(dim), is_pressed),
            final(self).is_pressed(dim) == is_pressed,
            final(self).last_pressed_at(dim) == if change == Some(KeyStateChange::Pressed) {
                now
            } else {
                old(self).last_pressed_at(dim)
            },
            forall|idx: Index2D|
                old(self).contains(idx) && idx != dim ==> #[trigger] final(self).is_pressed(idx)
                    == old(self).is_pressed(idx),
            forall|idx: Index2D|
                old(self).contains(idx) && idx != dim ==> #[trigger] final(self).last_pressed_at(
                    idx,
                ) == old(self).last_pressed_at(idx),
    {
        let old_state = self.state[dim.0][dim.1];
        let new_state = is_pressed;
        self.state[dim.0][dim.1] = new_state;
        if old_state != new_state {
            if old_state {
                Some(KeyStateChange::Released)
            } else {
                // Before returning, record the time that the key was pressed.
                self.last_pressed[dim.0][dim.1] = now;
                Some(KeyStateChange::Pressed)
            }
        } else {
            None
        }
    }

    /// Check if a key at the given index has been held longer than a specified duration.
    pub fn is_held(&self, idx: Index2D, hold_threshold: Duration, now: Instant) -> (r: bool)
        requires
            self.wf(),
            self.contains(idx),
        ensures
            r == self.held(idx, hold_threshold, now),
    {
        let is_pressed = self.state[idx.0][idx.1];
        let held_long_enough = now.has_reached(self.last_pressed[idx.0][idx.1], hold_threshold);
        is_pressed && held_long_enough
    }

    /// Reset the timestamp for when a key was last pressed.
    pub fn reset_key_press_time(&mut self, idx: Index2D, when: Instant)
        requires
            old(self).wf(),
            old(self).contains(idx),
        ensures
            final(self).wf(),
            forall|i: Index2D| #[trigger] final(self).contains(i) == old(self).contains(i),
            forall|i: Index2D| #[trigger] final(self).is_pressed(i) == old(self).is_pressed(i),
            final(self).last_pressed_at(idx) == when,
            forall|i: Index2D|
                old(self).contains(i) && i != idx ==> #[trigger] final(self).last_pressed_at(i)
                    == old(self).last_pressed_at(i),
    {
        self.last_pressed[idx.0][idx.1] = when;
    }
}


/// What the matrix knows of one cell.
pub struct Cell {
    /// Whether the key is down.
    pub pressed: bool,
    /// When the key went down, or when a hold of it was last reported.
    pub last_pressed: Instant,
    /// The state changes that are held back.
    pub blocked: BlockedKeyStates,
}

/// The virtual matrix as a mathematical value.
#[verifier::ext_equal]
pub struct MatrixState {
    /// Rows and columns.
    pub dim: Index2D,
    /// Where each key code sits.
    pub keys: Map<u16, Index2D>,
    /// The cells, one for each index within `dim`.
    pub cells: Map<Index2D, Cell>,
    /// How long a key has to stay down before it counts as held.
    pub hold_threshold: Duration,
}

/// The key matrix as a sequence of rows.
pub open spec fn key_matrix_view(keys: &KeyMatrix) -> Seq<Seq<Option<SimpleKey>>> {
    keys@.map_values(|row: Vec<Option<SimpleKey>>| row@)
}

/// The length of the longest among the first `n` rows.
pub open spec fn widest_row(keys: Seq<Seq<Option<SimpleKey>>>, n: nat) -> nat
    decreases n,
{
    if n == 0 {
        0
    } else {
        let rest = widest_row(keys, (n - 1) as nat);
        if keys[n - 1].len() > rest {
            keys[n - 1].len()
        } else {
            rest
        }
    }
}

/// `base`, and on top of it the keys in the first `n` cells of `row`, which
/// is row number `r`: a key that occurs again takes the later place.
pub open spec fn row_positions(
    row: Seq<Option<SimpleKey>>,
    r: usize,
    n: nat,
    base: Map<u16, Index2D>,
) -> Map<u16, Index2D>
    decreases n,
{
    if n == 0 {
        base
    } else {
        let before = row_positions(row, r, (n - 1) as nat, base);
        match row[n - 1] {
            Some(key) => before.insert(key.code, (r, (n - 1) as usize)),
            None => before,
        }
    }
}

/// Where each key of the first `n` rows sits; of two cells with the same key,
/// the later one in reading order counts.
pub open spec fn key_positions(keys: Seq<Seq<Option<SimpleKey>>>, n: nat) -> Map<u16, Index2D>
    decreases n,
{
    if n == 0 {
        Map::empty()
    } else {
        row_positions(
            keys[n - 1],
            (n - 1) as usize,
            keys[n - 1].len(),
            key_positions(keys, (n - 1) as nat),
        )
    }
}

/// No row among the first `n` is longer than the widest of them.
pub proof fn lemma_widest_row_bounds(keys: Seq<Seq<Option<SimpleKey>>>, n: nat, r: int)
    requires
        0 <= r < n,
    ensures
        keys[r].len() <= widest_row(keys, n),
    decreases n,
{
    if r < n - 1 {
        lemma_widest_row_bounds(keys, (n - 1) as nat, r);
    }
}

impl MatrixState {
    /// True when `idx` lies within the matrix.
    pub open spec fn in_range(self, idx: Index2D) -> bool {
        idx.0 < self.dim.0 && idx.1 < self.dim.1
    }

    /// There is a cell for each index within `dim` and for no other, and
    /// every key sits at such an index.
    pub open spec fn wf(self) -> bool {
        &&& forall|idx: Index2D| #[trigger] self.cells.contains_key(idx) <==> self.in_range(idx)
        &&& forall|code: u16| #[trigger]
            self.keys.contains_key(code) ==> self.in_range(self.keys[code])
    }

    /// The matrix as it is made: no key down, nothing blocked.
    pub open spec fn initial(
        keys: Seq<Seq<Option<SimpleKey>>>,
        hold_duration: Option<Duration>,
    ) -> MatrixState {
        let dim = (keys.len() as usize, widest_row(keys, keys.len()) as usize);
        MatrixState {
            dim,
            keys: key_positions(keys, keys.len()),
            cells: Map::new(
                |idx: Index2D| idx.0 < dim.0 && idx.1 < dim.1,
                |idx: Index2D|
                    Cell {
                        pressed: false,
                        last_pressed: Instant { nanos: 0 },
                        blocked: BlockedKeyStates::none(),
                    },
            ),
            hold_threshold: match hold_duration {
                Some(v) => v,
                None => default_hold(),
            },
        }
    }

    /// The cell that `event` speaks of: none for an event that is no key
    /// event, and none for a key without a place in the matrix.
    pub open spec fn locate(self, event: InputEvent) -> Option<Index2D> {
        match event.spec_key() {
            Some(key) => if self.keys.contains_key(key.code) {
                Some(self.keys[key.code])
            } else {
                None
            },
            None => None,
        }
    }

    /// The matrix after `event` at time `now`, blocks left aside, and what
    /// the event did: a value of 0 releases, every other value presses.
    pub open spec fn update_without_blocking(self, event: InputEvent, now: Instant) -> (
        MatrixState,
        MatrixUpdateResult,
    ) {
        match self.locate(event) {
            None => (self, MatrixUpdateResult::Bypass),
            Some(idx) => {
                let cell = self.cells[idx];
                let pressed = event.value != 0;
                match transition(cell.pressed, pressed) {
                    None => (self, MatrixUpdateResult::Redundant(idx)),
                    Some(change) => {
                        let last_pressed = if change == KeyStateChange::Pressed {
                            now
                        } else {
                            cell.last_pressed
                        };
                        (
                            MatrixState {
                                cells: self.cells.insert(
                                    idx,
                                    Cell { pressed, last_pressed, ..cell },
                                ),
                                ..self
                            },
                            MatrixUpdateResult::StateChanged(idx, change),
                        )
                    },
                }
            },
        }
    }

    /// What the blocks make of the result of an update: a state change that
    /// its cell holds back is reported as `Blocked`, and the block of the
    /// cell is consumed.
    pub open spec fn check_blocking(self, item: MatrixUpdateResult) -> (
        MatrixState,
        MatrixUpdateResult,
    ) {
        match item {
            MatrixUpdateResult::StateChanged(idx, change) => {
                let cell = self.cells[idx];
                (
                    MatrixState {
                        cells: self.cells.insert(
                            idx,
                            Cell { blocked: cell.blocked.after(change), ..cell },
                        ),
                        ..self
                    },
                    if cell.blocked.blocks(change) {
                        MatrixUpdateResult::Blocked
                    } else {
                        item
                    },
                )
            },
            _ => (self, item),
        }
    }

    /// The matrix after `event` at time `now`, and what the event did.
    pub open spec fn update(self, event: InputEvent, now: Instant) -> (
        MatrixState,
        MatrixUpdateResult,
    ) {
        let (next, item) = self.update_without_blocking(event, now);
        next.check_blocking(item)
    }

    /// The matrix with `block` on the cell at `idx`.
    pub open spec fn set_block(self, block: BlockedKeyStates, idx: Index2D) -> MatrixState {
        MatrixState {
            cells: self.cells.insert(idx, Cell { blocked: block, ..self.cells[idx] }),
            ..self
        }
    }

    /// True when the key at `idx` is down at `now` and has been for the threshold.
    pub open spec fn is_held(self, idx: Index2D, now: Instant) -> bool {
        self.cells[idx].pressed && now.reached(self.cells[idx].last_pressed, self.hold_threshold)
    }

    /// The held cells among the first `c` of row `r`, from left to right.
    pub open spec fn held_in_row(self, r: usize, c: nat, now: Instant) -> Seq<Index2D>
        decreases c,
    {
        if c == 0 {
            Seq::empty()
        } else {
            let before = self.held_in_row(r, (c - 1) as nat, now);
            let idx = (r, (c - 1) as usize);
            if self.is_held(idx, now) {
                before.push(idx)
            } else {
                before
            }
        }
    }

    /// The held cells of the first `r` rows, in reading order.
    pub open spec fn held_in_rows(self, r: nat, now: Instant) -> Seq<Index2D>
        decreases r,
    {
        if r == 0 {
            Seq::empty()
        } else {
            self.held_in_rows((r - 1) as nat, now) + self.held_in_row(
                (r - 1) as usize,
                self.dim.1 as nat,
                now,
            )
        }
    }

    /// Those of the first `n` of `cells` whose hold is not held back.
    pub open spec fn not_blocked(self, cells: Seq<Index2D>, n: nat) -> Seq<Index2D>
        decreases n,
    {
        if n == 0 {
            Seq::empty()
        } else {
            let before = self.not_blocked(cells, (n - 1) as nat);
            if self.cells[cells[n - 1]].blocked.held {
                before
            } else {
                before.push(cells[n - 1])
            }
        }
    }

    /// The matrix with the clock of every held cell set back to `now`.
    pub open spec fn with_holds_reset(self, now: Instant) -> MatrixState {
        MatrixState {
            cells: Map::new(
                |idx: Index2D| self.in_range(idx),
                |idx: Index2D|
                    if self.is_held(idx, now) {
                        Cell { last_pressed: now, ..self.cells[idx] }
                    } else {
                        self.cells[idx]
                    },
            ),
            ..self
        }
    }

    /// An update keeps the matrix well-formed and its shape, keys and
    /// threshold as they are, and reports a change of state only of a cell of
    /// the matrix.
    pub proof fn lemma_update(self, event: InputEvent, now: Instant)
        requires
            self.wf(),
        ensures
            self.same_frame(self.update(event, now).0),
            self.update(event, now).1 matches MatrixUpdateResult::StateChanged(idx, _)
                ==> self.in_range(idx),
    {
    }

    /// True when `next` is well-formed and has the shape, the keys and the
    /// threshold of `self`.
    pub open spec fn same_frame(self, next: MatrixState) -> bool {
        &&& next.wf()
        &&& next.dim == self.dim
        &&& next.keys == self.keys
        &&& next.hold_threshold == self.hold_threshold
    }

    /// The held cells of a row are cells of the matrix, are held, and are
    /// no more than the row has cells.
    pub proof fn lemma_held_in_row(self, r: usize, c: nat, now: Instant)
        requires
            r < self.dim.0,
            c <= self.dim.1,
        ensures
            self.held_in_row(r, c, now).len() <= c,
            forall|i: int|
                0 <= i < self.held_in_row(r, c, now).len() ==> self.in_range(
                    #[trigger] self.held_in_row(r, c, now)[i],
                ) && self.is_held(self.held_in_row(r, c, now)[i], now),
        decreases c,
    {
        if c > 0 {
            self.lemma_held_in_row(r, (c - 1) as nat, now);
        }
    }

    /// The held cells of the first rows are cells of the matrix, are held,
    /// and are no more than these rows have cells.
    pub proof fn lemma_held_in_rows(self, r: nat, now: Instant)
        requires
            r <= self.dim.0,
        ensures
            self.held_in_rows(r, now).len() <= r * self.dim.1,
            forall|i: int|
                0 <= i < self.held_in_rows(r, now).len() ==> self.in_range(
                    #[trigger] self.held_in_rows(r, now)[i],
                ) && self.is_held(self.held_in_rows(r, now)[i], now),
        decreases r,
    {
        if r > 0 {
            self.lemma_held_in_rows((r - 1) as nat, now);
            self.lemma_held_in_row((r - 1) as usize, self.dim.1 as nat, now);
            assert((r - 1) * self.dim.1 + self.dim.1 == r * self.dim.1) by (nonlinear_arith);
        } else {
            assert(0 * self.dim.1 == 0) by (nonlinear_arith);
        }
    }

    /// Those of `cells` that are not held back are among `cells`.
    pub proof fn lemma_not_blocked(self, cells: Seq<Index2D>, n: nat)
        requires
            n <= cells.len(),
        ensures
            self.not_blocked(cells, n).len() <= n,
            forall|i: int|
                0 <= i < self.not_blocked(cells, n).len() ==> cells.contains(
                    #[trigger] self.not_blocked(cells, n)[i],
                ),
        decreases n,
    {
        if n > 0 {
            self.lemma_not_blocked(cells, (n - 1) as nat);
            assert(cells.contains(cells[n - 1]));
        }
    }

    /// Detecting holds keeps the matrix well-formed and its shape, keys and
    /// threshold as they are; each cell that it reports is a cell of the
    /// matrix whose key was down, and had been for the threshold at least;
    /// and no more cells are reported than the matrix has.
    pub proof fn lemma_detect_held_keys(self, now: Instant)
        requires
            self.wf(),
        ensures
            self.same_frame(self.detect_held_keys(now).0),
            self.detect_held_keys(now).1.len() <= self.dim.0 * self.dim.1,
            forall|i: int|
                0 <= i < self.detect_held_keys(now).1.len() ==> self.in_range(
                    #[trigger] self.detect_held_keys(now).1[i],
                ) && self.is_held(self.detect_held_keys(now).1[i], now),
    {
        let held = self.held_in_rows(self.dim.0 as nat, now);
        self.lemma_held_in_rows(self.dim.0 as nat, now);
        self.lemma_not_blocked(held, held.len());
    }

    /// The matrix after the first `n` of `events` have updated it, each at
    /// the time that comes with it.
    pub open spec fn after_updates(self, events: Seq<(InputEvent, Instant)>, n: nat) -> MatrixState
        decreases n,
    {
        if n == 0 {
            self
        } else {
            self.after_updates(events, (n - 1) as nat).update(events[n - 1].0, events[n - 1].1).0
        }
    }

    /// How many of the first `n` of `events` have made the state of the
    /// cell at `idx` change by `change`, whether a block held the change
    /// back or not.
    pub open spec fn state_changes(
        self,
        events: Seq<(InputEvent, Instant)>,
        n: nat,
        idx: Index2D,
        change: KeyStateChange,
    ) -> nat
        decreases n,
    {
        if n == 0 {
            0
        } else {
            let before = self.after_updates(events, (n - 1) as nat);
            let result = before.update_without_blocking(events[n - 1].0, events[n - 1].1).1;
            self.state_changes(events, (n - 1) as nat, idx, change) + if result
                == MatrixUpdateResult::StateChanged(idx, change) {
                1nat
            } else {
                0nat
            }
        }
    }

    /// A cell whose key was up at first is pressed after a run of events
    /// exactly when these have pressed it more often than they have
    /// released it; it has then been pressed once more than released.
    pub proof fn lemma_pressed_iff_more_presses(
        self,
        events: Seq<(InputEvent, Instant)>,
        n: nat,
        idx: Index2D,
    )
        requires
            self.wf(),
            self.in_range(idx),
            !self.cells[idx].pressed,
            n <= events.len(),
        ensures
            self.same_frame(self.after_updates(events, n)),
            self.after_updates(events, n).cells[idx].pressed <==> self.state_changes(
                events,
                n,
                idx,
                KeyStateChange::Pressed,
            ) > self.state_changes(events, n, idx, KeyStateChange::Released),
            self.state_changes(events, n, idx, KeyStateChange::Pressed) == self.state_changes(
                events,
                n,
                idx,
                KeyStateChange::Released,
            ) + if self.after_updates(events, n).cells[idx].pressed {
                1nat
            } else {
                0nat
            },
        decreases n,
    {
        if n > 0 {
            self.lemma_pressed_iff_more_presses(events, (n - 1) as nat, idx);
            let before = self.after_updates(events, (n - 1) as nat);
            before.lemma_update(events[n - 1].0, events[n - 1].1);
        }
    }

    /// The matrix after the holds at `now` have been detected, and the cells
    /// whose hold is reported, in reading order.
    pub open spec fn detect_held_keys(self, now: Instant) -> (MatrixState, Seq<Index2D>) {
        let held = self.held_in_rows(self.dim.0 as nat, now);
        (self.with_holds_reset(now), self.not_blocked(held, held.len()))
    }
}

/// The time that a key must be held by default to count as held: 200 ms.
pub open spec fn default_hold() -> Duration {
    Duration { nanos: 200_000_000 }
}

/// Transforms discrete events (e.g. `KEY_A` was pressed)
/// into a classic NxM state matrix.
///
/// This is a workhorse structure that bridges the gap between
/// physical events (e.g. the user pressing a key) and our internal
/// representation of the keyboard state -- an MxN matrix.
pub struct VirtualKeyboardMatrix {
    key_to_index: HashMap<u16, Index2D>,
    dim: Index2D,
    state: StateMatrix,
    blocked: Vec<Vec<BlockedKeyStates>>,
    hold_down_threshold: Duration,
}

impl View for VirtualKeyboardMatrix {
    type V = MatrixState;

    closed spec fn view(&self) -> MatrixState {
        MatrixState {
            dim: self.dim,
            keys: self.key_to_index@,
            cells: Map::new(
                |idx: Index2D| idx.0 < self.dim.0 && idx.1 < self.dim.1,
                |idx: Index2D|
                    Cell {
                        pressed: self.state.is_pressed(idx),
                        last_pressed: self.state.last_pressed_at(idx),
                        blocked: self.blocked@[idx.0 as int]@[idx.1 as int],
                    },
            ),
            hold_threshold: self.hold_down_threshold,
        }
    }
}

impl VirtualKeyboardMatrix {
    /// The tables have the shape that `dim` gives, and every key sits within it.
    pub closed spec fn wf(&self) -> bool {
        &&& self.state.wf()
        &&& forall|idx: Index2D| #[trigger]
            self.state.contains(idx) <==> idx.0 < self.dim.0 && idx.1 < self.dim.1
        &&& self.blocked@.len() == self.dim.0
        &&& forall|r: int| 0 <= r < self.dim.0 ==> (#[trigger] self.blocked@[r])@.len() == self.dim.1
        &&& forall|code: u16| #[trigger]
            self.key_to_index@.contains_key(code) ==> self.key_to_index@[code].0 < self.dim.0
                && self.key_to_index@[code].1 < self.dim.1
    }

    /// A well-formed matrix has a well-formed view.
    pub proof fn lemma_view_wf(&self)
        requires
            self.wf(),
        ensures
            self@.wf(),
    {
    }

    /// The dimensions of the matrix.
    pub closed spec fn spec_dim(&self) -> Index2D {
        self.dim
    }

    /// Create a new virtual keyboard matrix by specifying which keys are
    /// at which positions in the matrix.
    ///
    /// For example, `KEY_A` is at row 3, column 2.
    pub fn new(keys: KeyMatrix, hold_duration: Option<Duration>) -> (m: VirtualKeyboardMatrix)
        ensures
            m.wf(),
            m@ == MatrixState::initial(key_matrix_view(&keys), hold_duration),
    {
        let ghost table = key_matrix_view(&keys);
        // Loop through the event matrix and store a map from event -> index.
        let row_count = keys.len();
        let mut col_count: usize = 0;
        let mut r: usize = 0;
        while r < row_count
            invariant
                r <= row_count,
                row_count == keys@.len(),
                table == key_matrix_view(&keys),
                col_count == widest_row(table, r as nat),
            decreases row_count - r,
        {
            if keys[r].len() > col_count {
                col_count = keys[r].len();
            }
            r += 1;
        }
        let dim = (row_count, col_count);
        let mut hash: HashMap<u16, Index2D> = HashMap::new();
        r = 0;
        while r < row_count
            invariant
                r <= row_count,
                row_count == keys@.len(),
                table == key_matrix_view(&keys),
                col_count == widest_row(table, row_count as nat),
                hash@ == key_positions(table, r as nat),
                forall|code: u16| #[trigger]
                    hash@.contains_key(code) ==> hash@[code].0 < row_count && hash@[code].1
                        < col_count,
            decreases row_count - r,
        {
            let row = &keys[r];
            proof {
                lemma_widest_row_bounds(table, row_count as nat, r as int);
            }
            let mut c: usize = 0;
            while c < row.len()
                invariant
                    r < row_count,
                    row_count == table.len(),
                    c <= row@.len(),
                    row@ == table[r as int],
                    row@.len() <= col_count,
                    hash@ == row_positions(table[r as int], r, c as nat, key_positions(table, r as nat)),
                    forall|code: u16| #[trigger]
                        hash@.contains_key(code) ==> hash@[code].0 < row_count && hash@[code].1
                            < col_count,
                decreases row@.len() - c,
            {
                match &row[c] {
                    Some(t) => {
                        hash.insert(t.code, (r, c));
                    },
                    None => {
                        // This (row,col) in the virtual keyboard matrix doesn't have
                        // a key assigned. It's therefore impossible for this matrix
                        // location to ever be pressed (true) or released (false).
                    },
                }
                c += 1;
            }
            r += 1;
        }

        let hold = match hold_duration {
            Some(v) => v,
            None => VirtualKeyboardMatrix::default_hold_duration(),
        };

        let mut blocked: Vec<Vec<BlockedKeyStates>> = Vec::new();
        r = 0;
        while r < row_count
            invariant
                r <= row_count,
                blocked@.len() == r,
                forall|i: int| 0 <= i < r ==> (#[trigger] blocked@[i])@.len() == col_count,
                forall|i: int, j: int|
                    0 <= i < r && 0 <= j < col_count ==> (#[trigger] blocked@[i]@[j])
                        == BlockedKeyStates::none(),
            decreases row_count - r,
        {
            let mut row: Vec<BlockedKeyStates> = Vec::new();
            let mut c: usize = 0;
            while c < col_count
                invariant
                    c <= col_count,
                    row@.len() == c,
                    forall|j: int| 0 <= j < c ==> (#[trigger] row@[j]) == BlockedKeyStates::none(),
                decreases col_count - c,
            {
                row.push(BlockedKeyStates::new());
                c += 1;
            }
            blocked.push(row);
            r += 1;
        }

        let state = StateMatrix::new(dim);
        assert forall|idx: Index2D| idx.0 < dim.0 && idx.1 < dim.1 implies !state.is_pressed(idx)
            && state.last_pressed_at(idx) == (Instant { nanos: 0 }) by {
            assert(state.contains(idx));
        }
        let m = VirtualKeyboardMatrix {
            key_to_index: hash,
            dim,
            state,
            blocked,
            hold_down_threshold: hold,
        };
        assert(m@.cells =~= MatrixState::initial(table, hold_duration).cells);
        m
    }

    /// Get the default duration that a key must be held to generate a HOLD event.
    pub fn default_hold_duration() -> (d: Duration)
        ensures
            d == default_hold(),
    {
        Duration::from_millis(200)
    }

    /// Get the dimensions of the matrix.
    #[verifier::when_used_as_spec(spec_dim)]
    pub fn dim(&self) -> (d: Index2D)
        ensures
            d == self.spec_dim(),
            d == self@.dim,
    {
        self.dim
    }

    /// Tells whether the key at the given index is down.
    pub fn is_pressed(&self, idx: Index2D) -> (pressed: bool)
        requires
            self.wf(),
            self@.in_range(idx),
        ensures
            pressed == self@.cells[idx].pressed,
    {
        self.state.is_held(idx, Duration::from_nanos(0), Instant::from_nanos(u128::MAX))
    }

    /// Block key events at the given index.
    pub fn set_block(&mut self, block: BlockedKeyStates, idx: Index2D)
        requires
            old(self).wf(),
            old(self)@.in_range(idx),
        ensures
            final(self).wf(),
            final(self)@ == old(self)@.set_block(block, idx),
    {
        self.blocked[idx.0][idx.1] = block;
        assert(self@.cells =~= old(self)@.set_block(block, idx).cells);
    }

    /// Update the matrix using an input event (e.g. `KEY_A` was pressed).
    /// Events can be blocked (see `set_block`).
    pub fn update(&mut self, event: InputEvent, now: Instant) -> (r: MatrixUpdateResult)
        requires
            old(self).wf(),
        ensures
            final(self).wf(),
            (final(self)@, r) == old(self)@.update(event, now),
    {
        // Update the matrix, then check if the event is blocked.
        let ans = self.update_without_blocking(event, now);
        self.check_blocking(ans)
    }

    /// Update the matrix state by processing a single event.
    fn update_without_blocking(&mut self, event: InputEvent, now: Instant) -> (r:
        MatrixUpdateResult)
        requires
            old(self).wf(),
        ensures
            final(self).wf(),
            (final(self)@, r) == old(self)@.update_without_blocking(event, now),
            r matches MatrixUpdateResult::StateChanged(idx, _) ==> old(self)@.in_range(idx),
    {
        // Filter based on the event code.
        // We only support key events than are also in our matrix.
        match event.key() {
            Some(which) => {
                let location = self.key_to_index.get(&which.code);
                match location {
                    Some(index) => {
                        // Great, the key corresponds to an index.
                        // Code the state is either pressed or not.
                        let index: Index2D = *index;
                        let is_pressed = event.value != 0;
                        let change = self.state.set(index, is_pressed, now);
                        proof {
                            let (next, _) = old(self)@.update_without_blocking(event, now);
                            assert(self@.cells =~= next.cells);
                        }
                        match change {
                            Some(t) => MatrixUpdateResult::StateChanged(index, t),
                            None => MatrixUpdateResult::Redundant(index),
                        }
                    },
                    // Keys that aren't part of the matrix aren't handled.
                    None => MatrixUpdateResult::Bypass,
                }
            },
            // Non key event codes aren't handled.
            None => MatrixUpdateResult::Bypass,
        }
    }

    /// Detect any keys that have been held longer than the specified duration.
    /// Holds can be blocked (see `set_block`).
    ///
    /// Returns a vector of positions where keys have been held.
    pub fn detect_held_keys(&mut self, now: Instant) -> (held: Vec<Index2D>)
        requires
            old(self).wf(),
        ensures
            final(self).wf(),
            (final(self)@, held@) == old(self)@.detect_held_keys(now),
            forall|i: int|
                0 <= i < held@.len() ==> old(self)@.in_range(#[trigger] held@[i]) && old(
                    self,
                )@.is_held(held@[i], now),
    {
        let all = self.detect_held_keys_without_blocking(now);
        let mut ans: Vec<Index2D> = Vec::new();
        let mut i: usize = 0;
        while i < all.len()
            invariant
                i <= all@.len(),
                self.wf(),
                self@ == old(self)@.with_holds_reset(now),
                forall|k: int|
                    0 <= k < all@.len() ==> old(self)@.in_range(#[trigger] all@[k]) && old(
                        self,
                    )@.is_held(all@[k], now),
                ans@ == old(self)@.not_blocked(all@, i as nat),
                forall|k: int|
                    0 <= k < ans@.len() ==> old(self)@.in_range(#[trigger] ans@[k]) && old(
                        self,
                    )@.is_held(ans@[k], now),
            decreases all@.len() - i,
        {
            let x: Index2D = all[i];
            let ghost before = self@;
            assert(old(self)@.in_range(all@[i as int]));
            assert(before.cells[x].blocked == old(self)@.cells[x].blocked);
            assert(before.cells[x].blocked == self.blocked@[x.0 as int]@[x.1 as int]);
            // Drop keys that are blocked (i.e. keep keys that aren't blocked).
            let is_blocked = self.blocked[x.0][x.1].check_if_blocked(KeyStateChange::Held);
            assert(self@.cells =~= before.cells);
            assert(is_blocked == old(self)@.cells[all@[i as int]].blocked.held);
            if !is_blocked {
                ans.push(x);
            }
            i += 1;
        }
        ans
    }

    /// Finds the keys that are held, blocked or not, and sets their clocks back.
    fn detect_held_keys_without_blocking(&mut self, now: Instant) -> (ans: Vec<Index2D>)
        requires
            old(self).wf(),
        ensures
            final(self).wf(),
            final(self)@ == old(self)@.with_holds_reset(now),
            ans@ == old(self)@.held_in_rows(old(self)@.dim.0 as nat, now),
            forall|k: int|
                0 <= k < ans@.len() ==> old(self)@.in_range(#[trigger] ans@[k]) && old(
                    self,
                )@.is_held(ans@[k], now),
    {
        // Loop through every cell in the matrix and detect keys that
        // have been held for longer than the given threshold.
        let mut ans: Vec<Index2D> = Vec::new();
        let mut r: usize = 0;
        while r < self.dim.0
            invariant
                r <= self.dim.0,
                self.wf(),
                self.dim == old(self).dim,
                self.key_to_index == old(self).key_to_index,
                self.blocked == old(self).blocked,
                self.hold_down_threshold == old(self).hold_down_threshold,
                ans@ == old(self)@.held_in_rows(r as nat, now),
                forall|k: int|
                    0 <= k < ans@.len() ==> old(self)@.in_range(#[trigger] ans@[k]) && old(
                        self,
                    )@.is_held(ans@[k], now),
                forall|idx: Index2D|
                    old(self)@.in_range(idx) ==> #[trigger] self.state.is_pressed(idx) == old(
                        self,
                    ).state.is_pressed(idx),
                forall|idx: Index2D|
                    old(self)@.in_range(idx) ==> #[trigger] self.state.last_pressed_at(idx) == if idx.0
                        < r && old(self)@.is_held(idx, now) {
                        now
                    } else {
                        old(self).state.last_pressed_at(idx)
                    },
            decreases self.dim.0 - r,
        {
            let ghost start = ans@;
            let mut c: usize = 0;
            while c < self.dim.1
                invariant
                    r < self.dim.0,
                    c <= self.dim.1,
                    self.wf(),
                    self.dim == old(self).dim,
                    self.key_to_index == old(self).key_to_index,
                    self.blocked == old(self).blocked,
                    self.hold_down_threshold == old(self).hold_down_threshold,
                    start == old(self)@.held_in_rows(r as nat, now),
                    ans@ == start + old(self)@.held_in_row(r, c as nat, now),
                    forall|k: int|
                        0 <= k < ans@.len() ==> old(self)@.in_range(#[trigger] ans@[k]) && old(
                            self,
                        )@.is_held(ans@[k], now),
                    forall|idx: Index2D|
                        old(self)@.in_range(idx) ==> #[trigger] self.state.is_pressed(idx) == old(
                            self,
                        ).state.is_pressed(idx),
                    forall|idx: Index2D|
                        old(self)@.in_range(idx) ==> #[trigger] self.state.last_pressed_at(idx)
                            == if (idx.0 < r || (idx.0 == r && idx.1 < c)) && old(self)@.is_held(
                            idx,
                            now,
                        ) {
                            now
                        } else {
                            old(self).state.last_pressed_at(idx)
                        },
                decreases self.dim.1 - c,
            {
                let idx = (r, c);
                if self.state.is_held(idx, self.hold_down_threshold, now) {
                    ans.push(idx);
                    self.state.reset_key_press_time(idx, now);
                }
                c += 1;
            }
            r += 1;
        }
        assert(self@.cells =~= old(self)@.with_holds_reset(now).cells);
        ans
    }

    /// Holds the result of an update against the block of its cell.
    fn check_blocking(&mut self, item: MatrixUpdateResult) -> (r: MatrixUpdateResult)
        requires
            old(self).wf(),
            item matches MatrixUpdateResult::StateChanged(idx, _) ==> old(self)@.in_range(idx),
        ensures
            final(self).wf(),
            (final(self)@, r) == old(self)@.check_blocking(item),
    {
        match item {
            MatrixUpdateResult::StateChanged(idx, state) => {
                let hit = self.blocked[idx.0][idx.1].check_if_blocked(state);
                assert(self@.cells =~= old(self)@.check_blocking(item).0.cells);
                if hit {
                    MatrixUpdateResult::Blocked
                } else {
                    item
                }
            },
            _ => item,
        }
    }
}

} // verus!
