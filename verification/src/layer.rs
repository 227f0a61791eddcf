use crate::keys::{KeyCode, TransparentKey};
use crate::virtual_keyboard_matrix::{Index2D, KeyStateChange, KeyStats};
use vstd::hash_map::StringHashMap;
use vstd::prelude::*;

verus! {

/// A `MxN` matrix of key codes.
pub struct KeyCodeMatrix {
    pub codes: Vec<Vec<KeyCode>>,
}

impl KeyCodeMatrix {
    /// The number of rows, and the length of the first row if there is one.
    pub open spec fn spec_dim(&self) -> Index2D {
        if self.codes@.len() > 0 {
            (self.codes@.len() as usize, self.codes@[0]@.len() as usize)
        } else {
            (0, 0)
        }
    }

    /// True when the matrix has `dim.0` rows of `dim.1` keys each.
    pub open spec fn covers(&self, dim: Index2D) -> bool {
        &&& self.codes@.len() == dim.0
        &&& forall|r: int| 0 <= r < self.codes@.len() ==> (#[trigger] self.codes@[r])@.len() == dim.1
    }

    /// The key at `idx`.
    pub open spec fn key_at(&self, idx: Index2D) -> KeyCode {
        self.codes@[idx.0 as int]@[idx.1 as int]
    }

    /// The rows of the matrix.
    pub open spec fn rows(&self) -> Seq<Seq<KeyCode>> {
        self.codes@.map_values(|row: Vec<KeyCode>| row@)
    }

    /// The first among the first `n` rows whose length is not `width`.
    pub open spec fn odd_row(&self, width: usize, n: nat) -> Option<int>
        decreases n,
    {
        if n == 0 {
            None
        } else {
            match self.odd_row(width, (n - 1) as nat) {
                Some(r) => Some(r),
                None => if self.codes@[n - 1]@.len() != width {
                    Some(n - 1)
                } else {
                    None
                },
            }
        }
    }

    /// What the matrix measures where it does not cover `dim`: its size as
    /// `dim` gives it, where that is not `dim`, or else the number of its
    /// rows and the length of the first row that is not as long as the first.
    pub open spec fn shape_fault(&self, dim: Index2D) -> Option<Index2D> {
        if self.spec_dim() != dim {
            Some(self.spec_dim())
        } else {
            match self.odd_row(dim.1, self.codes@.len()) {
                Some(r) => Some((self.codes@.len() as usize, self.codes@[r]@.len() as usize)),
                None => None,
            }
        }
    }

    /// Rows without an odd one among them all have the width.
    pub proof fn lemma_odd_row(&self, width: usize, n: nat)
        requires
            n <= self.codes@.len(),
        ensures
            match self.odd_row(width, n) {
                Some(r) => 0 <= r < n && self.codes@[r]@.len() != width,
                None => forall|r: int| 0 <= r < n ==> (#[trigger] self.codes@[r])@.len() == width,
            },
        decreases n,
    {
        if n > 0 {
            self.lemma_odd_row(width, (n - 1) as nat);
        }
    }

    /// Holds the shape of the matrix against `dim`.
    pub fn check_shape(&self, dim: Index2D) -> (fault: Option<Index2D>)
        ensures
            fault == self.shape_fault(dim),
            fault is None ==> self.covers(dim),
    {
        let own = self.dim();
        if own.0 != dim.0 || own.1 != dim.1 {
            return Some(own);
        }
        let mut r: usize = 0;
        while r < self.codes.len()
            invariant
                r <= self.codes@.len(),
                self.spec_dim() == dim,
                self.odd_row(dim.1, r as nat) is None,
            decreases self.codes@.len() - r,
        {
            if self.codes[r].len() != dim.1 {
                proof {
                    assert(self.odd_row(dim.1, (r + 1) as nat) == Some(r as int));
                    lemma_odd_row_found(*self, dim.1, (r + 1) as nat, self.codes@.len());
                }
                return Some((self.codes.len(), self.codes[r].len()));
            }
            r += 1;
        }
        proof {
            self.lemma_odd_row(dim.1, self.codes@.len());
        }
        None
    }

    /// Create a new matrix of the given size.
    pub fn new(dim: Index2D) -> (m: KeyCodeMatrix)
        ensures
            m.covers(dim),
            forall|idx: Index2D|
                idx.0 < dim.0 && idx.1 < dim.1 ==> #[trigger] m.key_at(idx) == KeyCode::Transparent(
                    TransparentKey {  },
                ),
    {
        let mut codes: Vec<Vec<KeyCode>> = Vec::new();
        let mut r: usize = 0;
        while r < dim.0
            invariant
                r <= dim.0,
                codes@.len() == r,
                forall|i: int| 0 <= i < r ==> (#[trigger] codes@[i])@.len() == dim.1,
                forall|i: int, j: int|
                    0 <= i < r && 0 <= j < dim.1 ==> (#[trigger] codes@[i]@[j])
                        == KeyCode::Transparent(TransparentKey {  }),
            decreases dim.0 - r,
        {
            let mut row: Vec<KeyCode> = Vec::new();
            let mut c: usize = 0;
            while c < dim.1
                invariant
                    c <= dim.1,
                    row@.len() == c,
                    forall|j: int|
                        0 <= j < c ==> (#[trigger] row@[j]) == KeyCode::Transparent(
                            TransparentKey {  },
                        ),
                decreases dim.1 - c,
            {
                row.push(KeyCode::Transparent(TransparentKey {  }));
                c += 1;
            }
            codes.push(row);
            r += 1;
        }
        KeyCodeMatrix { codes }
    }

    /// Get the size of the matrix.
    #[verifier::when_used_as_spec(spec_dim)]
    pub fn dim(&self) -> (d: Index2D)
        ensures
            d == self.spec_dim(),
    {
        let rows = self.codes.len();
        if rows > 0 {
            (rows, self.codes[0].len())
        } else {
            (rows, 0)
        }
    }
}

/// An odd row among the first `n` is the first odd row among the first
/// `m`, for every larger `m`.
pub proof fn lemma_odd_row_found(matrix: KeyCodeMatrix, width: usize, n: nat, m: nat)
    requires
        n <= m,
        matrix.odd_row(width, n) is Some,
    ensures
        matrix.odd_row(width, m) == matrix.odd_row(width, n),
    decreases m,
{
    if n < m {
        lemma_odd_row_found(matrix, width, n, (m - 1) as nat);
    }
}

/// Attributes of a layer (e.g. name).
pub struct LayerAttributes {
    pub name: String,
    pub enabled: bool,
}

/// A layer event that occurs when event counts pass a threshold.
pub struct ScheduledLayerEvent {
    pub layer_name: String,
    pub event_type: KeyStateChange,
    pub event_count: u32,
    pub enable_layer_at_event: bool,
}

impl ScheduledLayerEvent {
    /// True when `stats` has counted as many events of the kind as the
    /// scheduled event waits for.
    pub open spec fn ready(&self, stats: KeyStats) -> bool {
        self.event_count <= stats.spec_get(self.event_type)
    }
}

/// A collection of layers as a mathematical value.
#[verifier::ext_equal]
pub struct LayersState {
    /// The layers in the order in which they were added; a later layer
    /// takes precedence over an earlier one.
    pub attributes: Seq<LayerAttributes>,
    /// The place of each layer name in `attributes`.
    pub name_to_idx: Map<Seq<char>, usize>,
    /// The scheduled events that have not occurred yet, oldest first.
    pub callbacks: Seq<ScheduledLayerEvent>,
}

impl LayersState {
    /// Every name leads to a layer.
    pub open spec fn wf(self) -> bool {
        forall|name: Seq<char>| #[trigger]
            self.name_to_idx.contains_key(name) ==> self.name_to_idx[name] < self.attributes.len()
    }

    /// The collection without layers and without scheduled events.
    pub open spec fn empty() -> LayersState {
        LayersState { attributes: Seq::empty(), name_to_idx: Map::empty(), callbacks: Seq::empty() }
    }

    /// True when there is a layer of that name.
    pub open spec fn contains(self, name: Seq<char>) -> bool {
        self.name_to_idx.contains_key(name)
    }

    /// The collection with `attr` as its last layer, to which its name now leads.
    pub open spec fn add(self, attr: LayerAttributes) -> LayersState {
        LayersState {
            attributes: self.attributes.push(attr),
            name_to_idx: self.name_to_idx.insert(attr.name@, self.attributes.len() as usize),
            ..self
        }
    }

    /// True when the layer at `idx` is enabled.
    pub open spec fn is_enabled(self, idx: int) -> bool {
        self.attributes[idx].enabled
    }

    /// The collection with the layer called `name` enabled (`val`) or disabled.
    pub open spec fn set(self, name: Seq<char>, val: bool) -> LayersState {
        let idx = self.name_to_idx[name] as int;
        LayersState {
            attributes: self.attributes.update(
                idx,
                LayerAttributes { enabled: val, ..self.attributes[idx] },
            ),
            ..self
        }
    }

    /// The collection with the layer called `name` enabled if it was
    /// disabled, and disabled if it was enabled.
    pub open spec fn toggle(self, name: Seq<char>) -> LayersState {
        self.set(name, !self.attributes[self.name_to_idx[name] as int].enabled)
    }

    /// The collection with `e` as its latest scheduled event.
    pub open spec fn schedule(self, e: ScheduledLayerEvent) -> LayersState {
        LayersState { callbacks: self.callbacks.push(e), ..self }
    }

    /// True when each scheduled event names a layer.
    pub open spec fn callbacks_known(self) -> bool {
        forall|i: int|
            0 <= i < self.callbacks.len() ==> self.contains(
                (#[trigger] self.callbacks[i]).layer_name@,
            )
    }

    /// True when each scheduled event that is ready under `stats` names a layer.
    pub open spec fn ready_events_resolve(self, stats: KeyStats) -> bool {
        forall|i: int|
            0 <= i < self.callbacks.len() && (#[trigger] self.callbacks[i]).ready(stats)
                ==> self.contains(self.callbacks[i].layer_name@)
    }

    /// The collection after the first `n` scheduled events were held
    /// against `stats`, oldest first: one that is ready has set its layer and
    /// is gone, one that is not is kept. The events after these are left out.
    pub open spec fn checked(self, stats: KeyStats, n: nat) -> LayersState
        decreases n,
    {
        if n == 0 {
            LayersState { callbacks: Seq::empty(), ..self }
        } else {
            let before = self.checked(stats, (n - 1) as nat);
            let e = self.callbacks[n - 1];
            if e.ready(stats) {
                before.set(e.layer_name@, e.enable_layer_at_event)
            } else {
                before.schedule(e)
            }
        }
    }

    /// The collection after all scheduled events were held against `stats`.
    pub open spec fn check_event_callbacks(self, stats: KeyStats) -> LayersState {
        self.checked(stats, self.callbacks.len())
    }

    /// Where none of the first `n` scheduled events is ready, checking
    /// them keeps them all and changes no layer.
    pub proof fn lemma_checked_none_ready(self, stats: KeyStats, n: nat)
        requires
            n <= self.callbacks.len(),
            forall|i: int| 0 <= i < n ==> !(#[trigger] self.callbacks[i]).ready(stats),
        ensures
            self.checked(stats, n) == (LayersState {
                callbacks: self.callbacks.take(n as int),
                ..self
            }),
        decreases n,
    {
        if n > 0 {
            self.lemma_checked_none_ready(stats, (n - 1) as nat);
            assert(self.callbacks.take((n - 1) as int).push(self.callbacks[n - 1])
                =~= self.callbacks.take(n as int));
        } else {
            assert(self.callbacks.take(0) =~= Seq::<ScheduledLayerEvent>::empty());
        }
    }

    /// A scheduled event that is ready is applied once: after a check,
    /// no event is left that is ready under the same counts, so that a
    /// second check against them changes nothing.
    pub proof fn lemma_check_event_callbacks_once(self, stats: KeyStats)
        requires
            self.wf(),
            self.ready_events_resolve(stats),
        ensures
            forall|i: int|
                0 <= i < self.check_event_callbacks(stats).callbacks.len() ==> !(
                #[trigger] self.check_event_callbacks(stats).callbacks[i]).ready(stats),
            self.check_event_callbacks(stats).check_event_callbacks(stats)
                == self.check_event_callbacks(stats),
    {
        let once = self.check_event_callbacks(stats);
        self.lemma_checked(stats, self.callbacks.len());
        once.lemma_checked_none_ready(stats, once.callbacks.len());
        assert(once.callbacks.take(once.callbacks.len() as int) =~= once.callbacks);
    }

    /// Checking scheduled events changes neither the number of layers nor
    /// their names, and keeps only events that are not ready.
    pub proof fn lemma_checked(self, stats: KeyStats, n: nat)
        requires
            self.wf(),
            self.ready_events_resolve(stats),
            n <= self.callbacks.len(),
        ensures
            self.checked(stats, n).wf(),
            self.checked(stats, n).name_to_idx == self.name_to_idx,
            self.checked(stats, n).attributes.len() == self.attributes.len(),
            forall|i: int|
                0 <= i < self.attributes.len() ==> (#[trigger] self.checked(
                    stats,
                    n,
                ).attributes[i]).name == self.attributes[i].name,
            self.checked(stats, n).callbacks.len() <= n,
            self.callbacks_known() ==> self.checked(stats, n).callbacks_known(),
            forall|i: int|
                0 <= i < self.checked(stats, n).callbacks.len() ==> !(#[trigger] self.checked(
                    stats,
                    n,
                ).callbacks[i]).ready(stats),
        decreases n,
    {
        if n > 0 {
            self.lemma_checked(stats, (n - 1) as nat);
            let e = self.callbacks[n - 1];
            if e.ready(stats) {
                assert(self.contains(e.layer_name@));
            }
        }
    }
}

/// A collection of layer attributes.
pub struct LayerCollection {
    attributes: Vec<LayerAttributes>,
    name_to_idx: StringHashMap<usize>,
    event_layer_callbacks: Vec<ScheduledLayerEvent>,
}

impl View for LayerCollection {
    type V = LayersState;

    closed spec fn view(&self) -> LayersState {
        LayersState {
            attributes: self.attributes@,
            name_to_idx: self.name_to_idx@,
            callbacks: self.event_layer_callbacks@,
        }
    }
}

impl LayerCollection {
    /// The number of layers.
    pub closed spec fn spec_len(&self) -> usize {
        self.attributes@.len() as usize
    }

    /// Create a new empty layer collection.
    pub fn new() -> (layers: LayerCollection)
        ensures
            layers@ == LayersState::empty(),
    {
        LayerCollection {
            attributes: Vec::new(),
            name_to_idx: StringHashMap::new(),
            event_layer_callbacks: Vec::new(),
        }
    }

    /// Add a layer to the collection.
    pub fn add(&mut self, attr: LayerAttributes)
        ensures
            final(self)@ == old(self)@.add(attr),
    {
        self.name_to_idx.insert(attr.name.clone(), self.attributes.len());
        self.attributes.push(attr);
    }

    /// Count the number of items in the layer.
    #[verifier::when_used_as_spec(spec_len)]
    pub fn len(&self) -> (n: usize)
        ensures
            n == self.spec_len(),
            n == self@.attributes.len(),
    {
        self.attributes.len()
    }

    /// Determine if a layer is enabled.
    pub fn is_enabled(&self, idx: usize) -> (enabled: bool)
        requires
            idx < self@.attributes.len(),
        ensures
            enabled == self@.is_enabled(idx as int),
    {
        self.attributes[idx].enabled
    }

    /// The place of the layer of that name, if there is one.
    pub fn index_of(&self, name: &str) -> (idx: Option<usize>)
        ensures
            idx == if self@.contains(name@) {
                Some(self@.name_to_idx[name@])
            } else {
                None
            },
    {
        match self.name_to_idx.get(name) {
            Some(i) => Some(*i),
            None => None,
        }
    }

    /// The name of the layer at `idx`.
    pub fn name_of(&self, idx: usize) -> (name: &str)
        requires
            idx < self@.attributes.len(),
        ensures
            name@ == self@.attributes[idx as int].name@,
    {
        self.attributes[idx].name.as_str()
    }

    /// Tells whether there is a layer of that name.
    pub fn contains(&self, name: &str) -> (found: bool)
        ensures
            found == self@.contains(name@),
    {
        self.name_to_idx.contains_key(name)
    }

    /// Toggle a layer.
    pub fn toggle(&mut self, name: &str)
        requires
            old(self)@.wf(),
            old(self)@.contains(name@),
        ensures
            final(self)@ == old(self)@.toggle(name@),
    {
        let idx = *self.name_to_idx.get(name).unwrap();
        let v = self.attributes[idx].enabled;
        self.attributes[idx].enabled = !v;
        assert(self@.attributes =~= old(self)@.toggle(name@).attributes);
    }

    /// Set a layer state by name.
    pub fn set(&mut self, name: &str, val: bool)
        requires
            old(self)@.wf(),
            old(self)@.contains(name@),
        ensures
            final(self)@ == old(self)@.set(name@, val),
    {
        let idx = *self.name_to_idx.get(name).unwrap();
        self.attributes[idx].enabled = val;
        assert(self@.attributes =~= old(self)@.set(name@, val).attributes);
    }

    /// Tells whether each scheduled event names a layer.
    pub fn callbacks_known(&self) -> (ok: bool)
        ensures
            ok == self@.callbacks_known(),
    {
        let mut i: usize = 0;
        while i < self.event_layer_callbacks.len()
            invariant
                i <= self.event_layer_callbacks@.len(),
                forall|k: int|
                    0 <= k < i ==> self@.contains((#[trigger] self@.callbacks[k]).layer_name@),
            decreases self.event_layer_callbacks@.len() - i,
        {
            if !self.name_to_idx.contains_key(self.event_layer_callbacks[i].layer_name.as_str()) {
                assert(!self@.contains(self@.callbacks[i as int].layer_name@));
                return false;
            }
            i += 1;
        }
        true
    }

    /// Schedule a layer related event.
    pub fn schedule_event_count_callback(&mut self, e: ScheduledLayerEvent)
        ensures
            final(self)@ == old(self)@.schedule(e),
    {
        self.event_layer_callbacks.push(e);
    }

    /// Check if any layer related events have occurred.
    pub fn check_event_callbacks(&mut self, state: KeyStats)
        requires
            old(self)@.wf(),
            old(self)@.ready_events_resolve(state),
        ensures
            final(self)@ == old(self)@.check_event_callbacks(state),
    {
        let mut pending: Vec<ScheduledLayerEvent> = Vec::new();
        core::mem::swap(&mut pending, &mut self.event_layer_callbacks);
        let mut i: usize = 0;
        while i < pending.len()
            invariant
                i <= pending@.len(),
                pending@ == old(self)@.callbacks,
                old(self)@.wf(),
                old(self)@.ready_events_resolve(state),
                self@ == old(self)@.checked(state, i as nat),
            decreases pending@.len() - i,
        {
            proof {
                old(self)@.lemma_checked(state, i as nat);
            }
            let x = &pending[i];
            let is_ready = x.event_count <= state.get(x.event_type);
            if is_ready {
                self.set(x.layer_name.as_str(), x.enable_layer_at_event);
            } else {
                self.event_layer_callbacks.push(
                    ScheduledLayerEvent {
                        layer_name: x.layer_name.clone(),
                        event_type: x.event_type,
                        event_count: x.event_count,
                        enable_layer_at_event: x.enable_layer_at_event,
                    },
                );
            }
            i += 1;
        }
    }
}

} // verus!
