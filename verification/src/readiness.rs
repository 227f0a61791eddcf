use crate::input_keyboard::InputKeyboard;
use crate::keyboard_driver::KeyboardDriver;
use crate::keys::KeyCode;
use crate::layer::{KeyCodeMatrix, LayerCollection, LayersState};
use crate::output_keyboard::OutputKeyboard;
use crate::test_io_keyboard::{TestInputKeyboard, TestOutputKeyboard};
use crate::virtual_keyboard_matrix::Index2D;
use vstd::prelude::*;

verus! {

impl KeyCode {
    /// Tells whether `layers` has each layer that the key, or a key within it, names.
    pub fn knows_layers(&self, layers: &LayerCollection) -> (known: bool)
        ensures
            known == self.layers_known(layers@),
        decreases self,
    {
        match self {
            KeyCode::ToggleLayer(k) => layers.contains(k.layer_name.as_str()),
            KeyCode::MomentarilyEnableLayer(k) => layers.contains(k.layer_name.as_str()),
            KeyCode::ActivateLayer(k) => layers.contains(k.layer_name.as_str()),
            KeyCode::HoldEnableLayerPress(k) => layers.contains(k.layer_name.as_str()),
            KeyCode::OneShotLayer(k) => layers.contains(k.layer_name.as_str()),
            KeyCode::Wrapped(k) => k.inside.knows_layers(layers),
            KeyCode::SpaceCadet(k) => k.when_tapped.knows_layers(layers),
            _ => true,
        }
    }

    /// The number of events that the key demands of the output keyboard,
    /// if it is `limit` at most.
    pub fn demand_within(&self, limit: u32) -> (demand: Option<u32>)
        ensures
            match demand {
                Some(n) => n == self.demand() && n <= limit,
                None => self.demand() > limit,
            },
        decreases self,
    {
        match self {
            KeyCode::Normal(_) => if limit >= 1 {
                Some(1)
            } else {
                None
            },
            KeyCode::OneShotLayer(_) => if limit >= 1 {
                Some(1)
            } else {
                None
            },
            KeyCode::HoldEnableLayerPress(_) => if limit >= 2 {
                Some(2)
            } else {
                None
            },
            KeyCode::Macro(k) => {
                let keys = k.keys.len();
                if keys <= (limit / 2) as usize {
                    Some((2 * keys) as u32)
                } else {
                    None
                }
            },
            KeyCode::Wrapped(k) => {
                if limit == 0 {
                    return None;
                }
                match k.inside.demand_within(limit - 1) {
                    Some(n) => Some(n + 1),
                    None => None,
                }
            },
            KeyCode::SpaceCadet(k) => {
                if limit == 0 {
                    return None;
                }
                match k.when_tapped.demand_within((limit - 1) / 2) {
                    Some(n) => Some(2 * n + 1),
                    None => None,
                }
            },
            _ => Some(0),
        }
    }
}

impl KeyCodeMatrix {
    /// Tells whether the matrix has `dim.0` rows of `dim.1` keys each.
    pub fn has_shape(&self, dim: Index2D) -> (ok: bool)
        ensures
            ok == self.covers(dim),
    {
        if self.codes.len() != dim.0 {
            return false;
        }
        let mut r: usize = 0;
        while r < self.codes.len()
            invariant
                r <= self.codes@.len(),
                self.codes@.len() == dim.0,
                forall|k: int| 0 <= k < r ==> (#[trigger] self.codes@[k])@.len() == dim.1,
            decreases self.codes@.len() - r,
        {
            if self.codes[r].len() != dim.1 {
                return false;
            }
            r += 1;
        }
        true
    }

    /// True when each key of the matrix finds the layers that it names in `layers`.
    pub open spec fn keys_know(&self, layers: LayersState) -> bool {
        forall|r: int, c: int|
            0 <= r < self.codes@.len() && 0 <= c < self.codes@[r]@.len() ==> (
            #[trigger] self.codes@[r]@[c]).layers_known(layers)
    }

    /// Tells whether each key of the matrix finds the layers that it names in `layers`.
    pub fn knows_layers(&self, layers: &LayerCollection) -> (ok: bool)
        ensures
            ok == self.keys_know(layers@),
    {
        let mut r: usize = 0;
        while r < self.codes.len()
            invariant
                r <= self.codes@.len(),
                forall|i: int, j: int|
                    0 <= i < r && 0 <= j < self.codes@[i]@.len() ==> (
                    #[trigger] self.codes@[i]@[j]).layers_known(layers@),
            decreases self.codes@.len() - r,
        {
            let mut c: usize = 0;
            while c < self.codes[r].len()
                invariant
                    r < self.codes@.len(),
                    c <= self.codes@[r as int]@.len(),
                    forall|i: int, j: int|
                        0 <= i < r && 0 <= j < self.codes@[i]@.len() ==> (
                        #[trigger] self.codes@[i]@[j]).layers_known(layers@),
                    forall|j: int|
                        0 <= j < c ==> (#[trigger] self.codes@[r as int]@[j]).layers_known(layers@),
                decreases self.codes@[r as int]@.len() - c,
            {
                if !self.codes[r][c].knows_layers(layers) {
                    return false;
                }
                c += 1;
            }
            r += 1;
        }
        true
    }

    /// True when no key of the matrix demands more than `n`.
    pub open spec fn demands_at_most(&self, n: nat) -> bool {
        forall|r: int, c: int|
            0 <= r < self.codes@.len() && 0 <= c < self.codes@[r]@.len() ==> (
            #[trigger] self.codes@[r]@[c]).demand() <= n
    }

    /// True when a key of the matrix demands `n`.
    pub open spec fn demands(&self, n: nat) -> bool {
        exists|r: int, c: int|
            0 <= r < self.codes@.len() && 0 <= c < self.codes@[r]@.len() && (
            #[trigger] self.codes@[r]@[c]).demand() == n
    }

    /// True when a key of the matrix demands more than `n`.
    pub open spec fn demands_more_than(&self, n: nat) -> bool {
        exists|r: int, c: int|
            0 <= r < self.codes@.len() && 0 <= c < self.codes@[r]@.len() && (
            #[trigger] self.codes@[r]@[c]).demand() > n
    }

    /// The highest demand of a key of the matrix, or `least` where no key
    /// demands more; nothing where a key demands more than a `u32` can hold.
    pub fn max_demand(&self, least: u32) -> (highest: Option<u32>)
        ensures
            match highest {
                Some(n) => n >= least && self.demands_at_most(n as nat) && (n == least
                    || self.demands(n as nat)),
                None => self.demands_more_than(u32::MAX as nat),
            },
    {
        let mut highest: u32 = least;
        let mut r: usize = 0;
        while r < self.codes.len()
            invariant
                r <= self.codes@.len(),
                highest >= least,
                forall|i: int, j: int|
                    0 <= i < r && 0 <= j < self.codes@[i]@.len() ==> (
                    #[trigger] self.codes@[i]@[j]).demand() <= highest,
                highest == least || self.demands(highest as nat),
            decreases self.codes@.len() - r,
        {
            let mut c: usize = 0;
            while c < self.codes[r].len()
                invariant
                    r < self.codes@.len(),
                    c <= self.codes@[r as int]@.len(),
                    highest >= least,
                    forall|i: int, j: int|
                        0 <= i < r && 0 <= j < self.codes@[i]@.len() ==> (
                        #[trigger] self.codes@[i]@[j]).demand() <= highest,
                    forall|j: int|
                        0 <= j < c ==> (#[trigger] self.codes@[r as int]@[j]).demand() <= highest,
                    highest == least || self.demands(highest as nat),
                decreases self.codes@[r as int]@.len() - c,
            {
                match self.codes[r][c].demand_within(u32::MAX) {
                    Some(n) => {
                        if n > highest {
                            highest = n;
                            assert(self.codes@[r as int]@[c as int].demand() == highest);
                        }
                    },
                    None => {
                        assert(self.codes@[r as int]@[c as int].demand() > u32::MAX);
                        return None;
                    },
                }
                c += 1;
            }
            r += 1;
        }
        Some(highest)
    }
}

impl<I, O> KeyboardDriver<I, O> where I: InputKeyboard, O: OutputKeyboard {
    /// True when there are keys for each layer, in the shape of the
    /// matrix, and each key finds the layers that it names.
    pub open spec fn keys_fit(&self) -> bool {
        &&& self.layers_paired()
        &&& self.layers_cover(self.layered_codes@.len())
        &&& forall|l: int|
            0 <= l < self.layered_codes@.len() ==> (#[trigger] self.layered_codes@[l]).keys_know(
                self.layer_attributes@,
            )
    }

    /// Tells whether there are keys for each layer, in the shape of the
    /// matrix, and each key finds the layers that it names.
    pub fn keys_fit_matrix(&self) -> (ok: bool)
        ensures
            ok == self.keys_fit(),
    {
        if self.layered_codes.len() != self.layer_attributes.len() {
            return false;
        }
        let dim = self.matrix.dim();
        let mut l: usize = 0;
        while l < self.layered_codes.len()
            invariant
                l <= self.layered_codes@.len(),
                dim == self.matrix@.dim,
                self.layers_paired(),
                self.layers_cover(l as nat),
                forall|k: int|
                    0 <= k < l ==> (#[trigger] self.layered_codes@[k]).keys_know(
                        self.layer_attributes@,
                    ),
            decreases self.layered_codes@.len() - l,
        {
            if !self.layered_codes[l].has_shape(dim) {
                return false;
            }
            if !self.layered_codes[l].knows_layers(&self.layer_attributes) {
                return false;
            }
            l += 1;
        }
        true
    }

    /// The highest demand of a key, and 1 at least; nothing where a key
    /// demands more than a `u32` can hold.
    pub fn max_demand(&self) -> (highest: Option<u32>)
        ensures
            match highest {
                Some(n) => n >= 1 && (forall|l: int|
                    0 <= l < self.layered_codes@.len() ==> (
                    #[trigger] self.layered_codes@[l]).demands_at_most(n as nat)) && (n == 1
                    || exists|l: int|
                    0 <= l < self.layered_codes@.len() && (
                    #[trigger] self.layered_codes@[l]).demands(n as nat)),
                None => exists|l: int|
                    0 <= l < self.layered_codes@.len() && (
                    #[trigger] self.layered_codes@[l]).demands_more_than(u32::MAX as nat),
            },
    {
        let mut highest: u32 = 1;
        let mut l: usize = 0;
        while l < self.layered_codes.len()
            invariant
                l <= self.layered_codes@.len(),
                highest >= 1,
                forall|k: int|
                    0 <= k < l ==> (#[trigger] self.layered_codes@[k]).demands_at_most(
                        highest as nat,
                    ),
                highest == 1 || exists|k: int|
                    0 <= k < self.layered_codes@.len() && (
                    #[trigger] self.layered_codes@[k]).demands(highest as nat),
            decreases self.layered_codes@.len() - l,
        {
            match self.layered_codes[l].max_demand(highest) {
                Some(n) => {
                    if n > highest {
                        assert(self.layered_codes@[l as int].demands(n as nat));
                    }
                    highest = n;
                },
                None => {
                    assert(self.layered_codes@[l as int].demands_more_than(u32::MAX as nat));
                    return None;
                },
            }
            l += 1;
        }
        Some(highest)
    }
}

impl KeyboardDriver<TestInputKeyboard, TestOutputKeyboard> {
    /// True when the next tick can run: the driver is well-formed, the
    /// pending input can be read, and the output keyboard can count the
    /// events of the tick.
    pub open spec fn ready(&self) -> bool {
        &&& self.state().wf()
        &&& self.input.model().wf()
        &&& self.can_count(self.input.model().pending.len())
    }

    /// Tells whether the next tick can run.
    pub fn can_tick(&self) -> (ok: bool)
        requires
            self.matrix.wf(),
            self.layer_attributes@.wf(),
        ensures
            ok == self.ready(),
    {
        proof {
            self.matrix.lemma_view_wf();
        }
        if !self.output.is_well_formed() {
            return false;
        }
        if !self.layer_attributes.callbacks_known() {
            return false;
        }
        let fit = self.keys_fit_matrix();
        proof {
            self.lemma_keys_fit();
        }
        if !fit {
            return false;
        }
        if !self.input.can_read() {
            return false;
        }
        let dim = self.matrix.dim();
        let pending = self.input.events.len();
        let ghost units = (dim.0 * dim.1 + pending) as nat;
        let ghost load = self.state().world.output.load();
        let step = match self.max_demand() {
            Some(n) => n,
            None => {
                proof {
                    self.lemma_no_bound_counts(pending as nat);
                }
                return false;
            },
        };
        proof {
            self.lemma_bound(step as nat);
        }
        let limit: u128 = u32::MAX as u128;
        let loaded = self.output.load();
        assert(dim.0 * dim.1 <= u128::MAX) by (nonlinear_arith)
            requires
                dim.0 <= 0xffff_ffff_ffff_ffff,
                dim.1 <= 0xffff_ffff_ffff_ffff,
        ;
        let cells: u128 = dim.0 as u128 * dim.1 as u128;
        if loaded > limit || cells > limit || pending as u128 > limit {
            proof {
                assert forall|m: nat| m >= 1 && #[trigger] self.state().demand_bound(m) implies load
                    + units * m > u32::MAX by {
                    assert(units * m >= units) by (nonlinear_arith)
                        requires
                            m >= 1,
                    ;
                }
            }
            return false;
        }
        assert((cells + pending as u128) * step as u128 <= 0x2_0000_0000 * 0x1_0000_0000)
            by (nonlinear_arith)
            requires
                cells + pending as u128 <= 0x2_0000_0000,
                step as u128 <= 0x1_0000_0000,
        ;
        let total: u128 = loaded + (cells + pending as u128) * step as u128;
        let fits = total <= limit;
        proof {
            if fits {
                assert(self.state().demand_bound(step as nat) && load + units * step <= u32::MAX);
            } else {
                assert forall|m: nat| m >= 1 && #[trigger] self.state().demand_bound(m) implies load
                    + units * m > u32::MAX by {
                    self.lemma_bound_is_least(step as nat, m);
                    assert(units * m >= units * step) by (nonlinear_arith)
                        requires
                            m >= step,
                    ;
                }
            }
        }
        fits
    }

    /// Keys that fit the matrix are keys of a well-formed driver, where
    /// the parts of the driver are well-formed.
    proof fn lemma_keys_fit(&self)
        requires
            self.matrix@.wf(),
            self.layer_attributes@.wf(),
            self.state().world.output.wf(),
            self.layer_attributes@.callbacks_known(),
        ensures
            self.keys_fit() == self.state().wf(),
    {
        let s = self.state();
        if self.keys_fit() {
            assert forall|l: int| 0 <= l < s.keys.len() implies (#[trigger] s.keys[l]).len()
                == s.world.matrix.dim.0 by {
                assert(self.layered_codes@[l].covers(self.matrix@.dim));
            }
            assert forall|l: int, r: int|
                0 <= l < s.keys.len() && 0 <= r < s.world.matrix.dim.0 implies (
            #[trigger] s.keys[l][r]).len() == s.world.matrix.dim.1 by {
                assert(self.layered_codes@[l].covers(self.matrix@.dim));
            }
            assert forall|l: int, idx: Index2D| s.has_key(l, idx) implies (
            #[trigger] s.keys[l][idx.0 as int][idx.1 as int]).layers_known(s.world.layers) by {
                assert(self.layered_codes@[l].covers(self.matrix@.dim));
                assert(self.layered_codes@[l].keys_know(self.layer_attributes@));
                assert(s.keys[l][idx.0 as int][idx.1 as int]
                    == self.layered_codes@[l].codes@[idx.0 as int]@[idx.1 as int]);
            }
        }
        if s.wf() {
            assert forall|l: int| 0 <= l < self.layered_codes@.len() implies (
            #[trigger] self.layered_codes@[l]).covers(self.matrix@.dim) by {
                assert(s.keys[l].len() == s.world.matrix.dim.0);
                assert forall|r: int| 0 <= r < self.layered_codes@[l].codes@.len() implies (
                #[trigger] self.layered_codes@[l].codes@[r])@.len() == self.matrix@.dim.1 by {
                    assert(s.keys[l][r].len() == s.world.matrix.dim.1);
                }
            }
            assert forall|l: int| 0 <= l < self.layered_codes@.len() implies (
            #[trigger] self.layered_codes@[l]).keys_know(self.layer_attributes@) by {
                assert(self.layered_codes@[l].covers(self.matrix@.dim));
                assert forall|r: int, c: int|
                    0 <= r < self.layered_codes@[l].codes@.len() && 0 <= c
                        < self.layered_codes@[l].codes@[r]@.len() implies (
                #[trigger] self.layered_codes@[l].codes@[r]@[c]).layers_known(
                    self.layer_attributes@,
                ) by {
                    let idx = (r as usize, c as usize);
                    assert(s.has_key(l, idx));
                    assert(s.keys[l][idx.0 as int][idx.1 as int]
                        == self.layered_codes@[l].codes@[r]@[c]);
                }
            }
        }
    }

    /// A number that bounds the demand of the keys of each layer bounds
    /// the demand of the keys of the driver.
    proof fn lemma_bound(&self, n: nat)
        requires
            self.state().wf(),
            forall|l: int|
                0 <= l < self.layered_codes@.len() ==> (
                #[trigger] self.layered_codes@[l]).demands_at_most(n),
        ensures
            self.state().demand_bound(n),
    {
        let s = self.state();
        assert forall|l: int, idx: Index2D| s.has_key(l, idx) implies (
        #[trigger] s.keys[l][idx.0 as int][idx.1 as int]).demand() <= n by {
            assert(self.layered_codes@[l].demands_at_most(n));
            assert(s.keys[l].len() == s.world.matrix.dim.0);
            assert(s.keys[l][idx.0 as int].len() == s.world.matrix.dim.1);
            assert(s.keys[l][idx.0 as int][idx.1 as int]
                == self.layered_codes@[l].codes@[idx.0 as int]@[idx.1 as int]);
        }
    }

    /// The highest demand of a key, or 1, is the least bound of the
    /// demands of the keys that is 1 at least.
    proof fn lemma_bound_is_least(&self, step: nat, m: nat)
        requires
            self.state().wf(),
            m >= 1,
            self.state().demand_bound(m),
            step == 1 || exists|l: int|
                0 <= l < self.layered_codes@.len() && (#[trigger] self.layered_codes@[l]).demands(
                    step,
                ),
        ensures
            step <= m,
    {
        if step != 1 {
            let s = self.state();
            let l = choose|l: int|
                0 <= l < self.layered_codes@.len() && (#[trigger] self.layered_codes@[l]).demands(
                    step,
                );
            let matrix = self.layered_codes@[l];
            let (r, c) = choose|r: int, c: int|
                0 <= r < matrix.codes@.len() && 0 <= c < matrix.codes@[r]@.len() && (
                #[trigger] matrix.codes@[r]@[c]).demand() == step;
            let idx = (r as usize, c as usize);
            assert(s.keys[l].len() == s.world.matrix.dim.0);
            assert(s.keys[l][r].len() == s.world.matrix.dim.1);
            assert(s.has_key(l, idx));
            assert(s.keys[l][idx.0 as int][idx.1 as int] == matrix.codes@[r]@[c]);
        }
    }

    /// Where a key demands more than a `u32` can hold, the output
    /// keyboard cannot count the events of a tick.
    proof fn lemma_no_bound_counts(&self, pending: nat)
        requires
            self.state().wf(),
            exists|l: int|
                0 <= l < self.layered_codes@.len() && (
                #[trigger] self.layered_codes@[l]).demands_more_than(u32::MAX as nat),
        ensures
            !self.can_count(pending),
    {
        let s = self.state();
        let l = choose|l: int|
            0 <= l < self.layered_codes@.len() && (
            #[trigger] self.layered_codes@[l]).demands_more_than(u32::MAX as nat);
        let matrix = self.layered_codes@[l];
        let (r, c) = choose|r: int, c: int|
            0 <= r < matrix.codes@.len() && 0 <= c < matrix.codes@[r]@.len() && (
            #[trigger] matrix.codes@[r]@[c]).demand() > u32::MAX as nat;
        let idx = (r as usize, c as usize);
        assert(s.keys[l].len() == s.world.matrix.dim.0);
        assert(s.keys[l][r].len() == s.world.matrix.dim.1);
        assert(s.has_key(l, idx));
        assert(s.keys[l][idx.0 as int][idx.1 as int] == matrix.codes@[r]@[c]);
        let cells = self.matrix@.dim.0 * self.matrix@.dim.1;
        assert(cells >= 1) by (nonlinear_arith)
            requires
                cells == self.matrix@.dim.0 * self.matrix@.dim.1,
                self.matrix@.dim.0 >= 1,
                self.matrix@.dim.1 >= 1,
        ;
        assert forall|m: nat| m >= 1 && #[trigger] s.demand_bound(m) implies s.world.output.load()
            + (cells + pending) * m > u32::MAX by {
            assert(m > u32::MAX);
            assert((cells + pending) * m >= m) by (nonlinear_arith)
                requires
                    cells + pending >= 1,
            ;
        }
    }
}

} // verus!
