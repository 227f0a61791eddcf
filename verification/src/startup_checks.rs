use crate::input_keyboard::InputKeyboard;
use crate::keyboard_driver::KeyboardDriver;
use crate::keys::{KeyCode, KeyConstraint};
use crate::layer::KeyCodeMatrix;
use crate::output_keyboard::OutputKeyboard;
use crate::text::{decimal, to_decimal};
use crate::virtual_keyboard_matrix::Index2D;
use vstd::prelude::*;
use vstd::string::*;

verus! {

/// What is said of a layer whose matrix measures `other` and not `dim`.
pub open spec fn mismatch_message(dim: Index2D, layer: nat, name: Seq<char>, other: Index2D) -> Seq<
    char,
> {
    "Mismatched matrices- the virtual matrix is "@ + decimal(dim.0 as nat) + "x"@ + decimal(
        dim.1 as nat,
    ) + ", but layer \""@ + decimal(layer) + "\" (#"@ + name + ") is "@ + decimal(other.0 as nat)
        + "x"@ + decimal(other.1 as nat) + "."@
}

/// What is said of the key at `idx` on the layer `parent` that names a
/// layer `name` that is not there.
pub open spec fn unknown_layer_message(idx: Index2D, parent: Seq<char>, name: Seq<char>) -> Seq<
    char,
> {
    "Key constraint violated: the key at "@ + decimal(idx.0 as nat) + "x"@ + decimal(idx.1 as nat)
        + " on layer \""@ + parent + "\" references \""@ + name
        + "\",but no layer exists with that name."@
}

/// What is said of the key at `idx` on the layer `parent` that needs a
/// transparent key at its place on the layer `name`, where there is none.
pub open spec fn not_transparent_message(idx: Index2D, parent: Seq<char>, name: Seq<char>) -> Seq<
    char,
> {
    "Key constraint violated: the key at "@ + decimal(idx.0 as nat) + "x"@ + decimal(idx.1 as nat)
        + " on layer \""@ + parent + "\" requires the key at "@ + decimal(idx.0 as nat) + "x"@
        + decimal(idx.1 as nat) + " on \""@ + name + "\" to be transparent."@
}

/// Writes what is said of a layer whose matrix does not measure `dim`.
fn mismatch_text(dim: Index2D, layer: usize, name: &str, other: Index2D) -> (t: String)
    ensures
        t@ == mismatch_message(dim, layer as nat, name@, other),
{
    let mut t = String::from_str("Mismatched matrices- the virtual matrix is ");
    t.append(to_decimal(dim.0).as_str());
    t.append("x");
    t.append(to_decimal(dim.1).as_str());
    t.append(", but layer \"");
    t.append(to_decimal(layer).as_str());
    t.append("\" (#");
    t.append(name);
    t.append(") is ");
    t.append(to_decimal(other.0).as_str());
    t.append("x");
    t.append(to_decimal(other.1).as_str());
    t.append(".");
    t
}

/// Writes what is said of a key that names a layer that is not there.
fn unknown_layer_text(idx: Index2D, parent: &str, name: &str) -> (t: String)
    ensures
        t@ == unknown_layer_message(idx, parent@, name@),
{
    let mut t = String::from_str("Key constraint violated: the key at ");
    t.append(to_decimal(idx.0).as_str());
    t.append("x");
    t.append(to_decimal(idx.1).as_str());
    t.append(" on layer \"");
    t.append(parent);
    t.append("\" references \"");
    t.append(name);
    t.append("\",but no layer exists with that name.");
    t
}

/// Writes what is said of a key that needs a transparent key on another layer.
fn not_transparent_text(idx: Index2D, parent: &str, name: &str) -> (t: String)
    ensures
        t@ == not_transparent_message(idx, parent@, name@),
{
    let mut t = String::from_str("Key constraint violated: the key at ");
    t.append(to_decimal(idx.0).as_str());
    t.append("x");
    t.append(to_decimal(idx.1).as_str());
    t.append(" on layer \"");
    t.append(parent);
    t.append("\" requires the key at ");
    t.append(to_decimal(idx.0).as_str());
    t.append("x");
    t.append(to_decimal(idx.1).as_str());
    t.append(" on \"");
    t.append(name);
    t.append("\" to be transparent.");
    t
}

impl KeyCode {
    /// A key that has to sit above a transparent key on a layer asks just
    /// before that for the layer to be there.
    pub proof fn lemma_constraints_order(self, j: int)
        requires
            0 <= j < self.constraints().len(),
            self.constraints()[j] is KeyOnOtherLayerIsTransparent,
        ensures
            j > 0,
            self.constraints()[j - 1] is LayerExists,
            self.constraints()[j - 1]->LayerExists_0@
                == self.constraints()[j]->KeyOnOtherLayerIsTransparent_0@,
    {
    }
}

impl<I, O> KeyboardDriver<I, O> where I: InputKeyboard, O: OutputKeyboard {
    /// There are as many matrices of keys as layers.
    pub open spec fn layers_paired(&self) -> bool {
        self.layered_codes@.len() == self.layer_attributes@.attributes.len()
    }

    /// The name of the layer `l`.
    pub open spec fn layer_name(&self, l: int) -> Seq<char> {
        self.layer_attributes@.attributes[l].name@
    }

    /// True when each of the first `n` layers covers the virtual matrix.
    pub open spec fn layers_cover(&self, n: nat) -> bool {
        forall|l: int| 0 <= l < n ==> (#[trigger] self.layered_codes@[l]).covers(self.matrix@.dim)
    }

    /// What is wrong with the size of the layer `l`, if anything: it
    /// has to cover the virtual matrix.
    pub open spec fn dims_fault_at(&self, l: int) -> Option<Seq<char>> {
        match self.layered_codes@[l].shape_fault(self.matrix@.dim) {
            Some(other) => Some(
                mismatch_message(self.matrix@.dim, l as nat, self.layer_name(l), other),
            ),
            None => None,
        }
    }

    /// What is wrong with the sizes of the first `n` layers: the fault of
    /// the first layer that has one.
    pub open spec fn dims_fault(&self, n: nat) -> Option<Seq<char>>
        decreases n,
    {
        if n == 0 {
            None
        } else {
            match self.dims_fault((n - 1) as nat) {
                Some(fault) => Some(fault),
                None => self.dims_fault_at(n - 1),
            }
        }
    }

    /// Why `rule` does not hold of the key at `idx` on the layer called
    /// `parent`, if it does not.
    pub open spec fn constraint_fault(&self, rule: KeyConstraint, idx: Index2D, parent: Seq<char>) -> Option<
        Seq<char>,
    > {
        match rule {
            KeyConstraint::LayerExists(name) => {
                if !self.layer_attributes@.contains(name@) {
                    Some(unknown_layer_message(idx, parent, name@))
                } else {
                    None
                }
            },
            KeyConstraint::KeyOnOtherLayerIsTransparent(name) => {
                let other = self.layer_attributes@.name_to_idx[name@] as int;
                if !self.layered_codes@[other].key_at(idx).spec_is_transparent() {
                    Some(not_transparent_message(idx, parent, name@))
                } else {
                    None
                }
            },
        }
    }

    /// The fault of the first among the first `n` of `rules` that does not hold.
    pub open spec fn rules_fault(
        &self,
        rules: Seq<KeyConstraint>,
        n: nat,
        idx: Index2D,
        parent: Seq<char>,
    ) -> Option<Seq<char>>
        decreases n,
    {
        if n == 0 {
            None
        } else {
            match self.rules_fault(rules, (n - 1) as nat, idx, parent) {
                Some(fault) => Some(fault),
                None => self.constraint_fault(rules[n - 1], idx, parent),
            }
        }
    }

    /// The fault of the key at `idx` on the layer `l`.
    pub open spec fn key_fault(&self, l: int, idx: Index2D) -> Option<Seq<char>> {
        let rules = self.layered_codes@[l].key_at(idx).constraints();
        self.rules_fault(rules, rules.len(), idx, self.layer_name(l))
    }

    /// The fault of the first among the first `n` keys of row `r` on the
    /// layer `l` that has one.
    pub open spec fn row_fault(&self, l: int, r: usize, n: nat) -> Option<Seq<char>>
        decreases n,
    {
        if n == 0 {
            None
        } else {
            match self.row_fault(l, r, (n - 1) as nat) {
                Some(fault) => Some(fault),
                None => self.key_fault(l, (r, (n - 1) as usize)),
            }
        }
    }

    /// The fault of the first among the first `n` rows of the layer `l`
    /// that has one.
    pub open spec fn layer_fault(&self, l: int, n: nat) -> Option<Seq<char>>
        decreases n,
    {
        if n == 0 {
            None
        } else {
            match self.layer_fault(l, (n - 1) as nat) {
                Some(fault) => Some(fault),
                None => self.row_fault(l, (n - 1) as usize, self.matrix@.dim.1 as nat),
            }
        }
    }

    /// The fault of the first among the first `n` layers that has a key
    /// whose constraints do not hold.
    pub open spec fn constraints_fault(&self, n: nat) -> Option<Seq<char>>
        decreases n,
    {
        if n == 0 {
            None
        } else {
            match self.constraints_fault((n - 1) as nat) {
                Some(fault) => Some(fault),
                None => self.layer_fault(n - 1, self.matrix@.dim.0 as nat),
            }
        }
    }

    /// What is wrong with the driver, if anything: the sizes of the
    /// layers come first, the constraints of the keys second.
    pub open spec fn fault(&self) -> Option<Seq<char>> {
        match self.dims_fault(self.layered_codes@.len()) {
            Some(fault) => Some(fault),
            None => self.constraints_fault(self.layered_codes@.len()),
        }
    }

    /// A fault of the sizes among the first `n` layers is the fault among
    /// the first `m`, for every larger `m`.
    pub proof fn lemma_dims_fault_found(&self, n: nat, m: nat)
        requires
            n <= m,
            self.dims_fault(n) is Some,
        ensures
            self.dims_fault(m) == self.dims_fault(n),
        decreases m,
    {
        if n < m {
            self.lemma_dims_fault_found(n, (m - 1) as nat);
        }
    }

    /// A fault among the first `n` rules is the fault among the first `m`,
    /// for every larger `m`.
    pub proof fn lemma_rules_fault_found(
        &self,
        rules: Seq<KeyConstraint>,
        n: nat,
        m: nat,
        idx: Index2D,
        parent: Seq<char>,
    )
        requires
            n <= m,
            self.rules_fault(rules, n, idx, parent) is Some,
        ensures
            self.rules_fault(rules, m, idx, parent) == self.rules_fault(rules, n, idx, parent),
        decreases m,
    {
        if n < m {
            self.lemma_rules_fault_found(rules, n, (m - 1) as nat, idx, parent);
        }
    }

    /// A fault among the first `n` keys of a row is the fault among the
    /// first `m`, for every larger `m`.
    pub proof fn lemma_row_fault_found(&self, l: int, r: usize, n: nat, m: nat)
        requires
            n <= m,
            self.row_fault(l, r, n) is Some,
        ensures
            self.row_fault(l, r, m) == self.row_fault(l, r, n),
        decreases m,
    {
        if n < m {
            self.lemma_row_fault_found(l, r, n, (m - 1) as nat);
        }
    }

    /// A fault among the first `n` rows of a layer is the fault among the
    /// first `m`, for every larger `m`.
    pub proof fn lemma_layer_fault_found(&self, l: int, n: nat, m: nat)
        requires
            n <= m,
            self.layer_fault(l, n) is Some,
        ensures
            self.layer_fault(l, m) == self.layer_fault(l, n),
        decreases m,
    {
        if n < m {
            self.lemma_layer_fault_found(l, n, (m - 1) as nat);
        }
    }

    /// A fault of the constraints among the first `n` layers is the fault
    /// among the first `m`, for every larger `m`.
    pub proof fn lemma_constraints_fault_found(&self, n: nat, m: nat)
        requires
            n <= m,
            self.constraints_fault(n) is Some,
        ensures
            self.constraints_fault(m) == self.constraints_fault(n),
        decreases m,
    {
        if n < m {
            self.lemma_constraints_fault_found(n, (m - 1) as nat);
        }
    }

    /// Verify that the driver layers are compatible.
    pub fn verify(&self) -> (r: Result<(), String>)
        requires
            self.layers_paired(),
            self.layer_attributes@.wf(),
        ensures
            match r {
                Ok(_) => self.fault() is None && self.layers_cover(self.layered_codes@.len()),
                Err(message) => self.fault() == Some(message@),
            },
    {
        match self.verify_dims() {
            Err(e) => {
                return Err(e);
            },
            Ok(_) => {},
        }
        match self.verify_key_constraints() {
            Err(e) => {
                return Err(e);
            },
            Ok(_) => {},
        }
        Ok(())
    }

    /// Verify that matrix and layers share the same dimensions.
    fn verify_dims(&self) -> (r: Result<(), String>)
        requires
            self.layers_paired(),
        ensures
            match r {
                Ok(_) => self.dims_fault(self.layered_codes@.len()) is None && self.layers_cover(
                    self.layered_codes@.len(),
                ),
                Err(message) => self.dims_fault(self.layered_codes@.len()) == Some(message@),
            },
    {
        let dim = self.matrix.dim();
        let mut i: usize = 0;
        while i < self.layered_codes.len()
            invariant
                i <= self.layered_codes@.len(),
                self.layers_paired(),
                dim == self.matrix@.dim,
                self.dims_fault(i as nat) is None,
                self.layers_cover(i as nat),
            decreases self.layered_codes@.len() - i,
        {
            match self.layered_codes[i].check_shape(dim) {
                Some(other_dim) => {
                    let e = mismatch_text(dim, i, self.layer_attributes.name_of(i), other_dim);
                    proof {
                        self.lemma_dims_fault_found((i + 1) as nat, self.layered_codes@.len());
                    }
                    return Err(e);
                },
                None => {},
            }
            i += 1;
        }
        Ok(())
    }

    /// Verify that per-key constraints are satisfied.
    fn verify_key_constraints(&self) -> (r: Result<(), String>)
        requires
            self.layers_paired(),
            self.layer_attributes@.wf(),
            self.layers_cover(self.layered_codes@.len()),
        ensures
            match r {
                Ok(_) => self.constraints_fault(self.layered_codes@.len()) is None,
                Err(message) => self.constraints_fault(self.layered_codes@.len()) == Some(
                    message@,
                ),
            },
    {
        // Loop through every key in every layer.
        // Verify every constraint- quit early if a constraint is violated.
        let dim = self.matrix.dim();
        let layers = self.layered_codes.len();
        let mut l: usize = 0;
        while l < layers
            invariant
                l <= layers,
                layers == self.layered_codes@.len(),
                dim == self.matrix@.dim,
                self.layers_paired(),
                self.layer_attributes@.wf(),
                self.layers_cover(layers as nat),
                self.constraints_fault(l as nat) is None,
            decreases layers - l,
        {
            assert(self.layered_codes@[l as int].covers(dim));
            let mut r: usize = 0;
            while r < dim.0
                invariant
                    r <= dim.0,
                    l < layers,
                    layers == self.layered_codes@.len(),
                    dim == self.matrix@.dim,
                    self.layers_paired(),
                    self.layer_attributes@.wf(),
                    self.layers_cover(layers as nat),
                    self.layered_codes@[l as int].covers(dim),
                    self.constraints_fault(l as nat) is None,
                    self.layer_fault(l as int, r as nat) is None,
                decreases dim.0 - r,
            {
                let mut c: usize = 0;
                while c < dim.1
                    invariant
                        c <= dim.1,
                        r < dim.0,
                        l < layers,
                        layers == self.layered_codes@.len(),
                        dim == self.matrix@.dim,
                        self.layers_paired(),
                        self.layer_attributes@.wf(),
                        self.layers_cover(layers as nat),
                        self.layered_codes@[l as int].covers(dim),
                        self.constraints_fault(l as nat) is None,
                        self.layer_fault(l as int, r as nat) is None,
                        self.row_fault(l as int, r, c as nat) is None,
                    decreases dim.1 - c,
                {
                    let idx = (r, c);
                    let key = &self.layered_codes[l].codes[r][c];
                    let rules = key.get_constraints();
                    let parent = self.layer_attributes.name_of(l);
                    let mut j: usize = 0;
                    while j < rules.len()
                        invariant
                            j <= rules@.len(),
                            idx == (r, c),
                            c < dim.1,
                            r < dim.0,
                            l < layers,
                            layers == self.layered_codes@.len(),
                            dim == self.matrix@.dim,
                            self.layers_paired(),
                            self.layer_attributes@.wf(),
                            self.layers_cover(layers as nat),
                            parent@ == self.layer_name(l as int),
                            rules@ == self.layered_codes@[l as int].key_at(idx).constraints(),
                            self.constraints_fault(l as nat) is None,
                            self.layer_fault(l as int, r as nat) is None,
                            self.row_fault(l as int, r, c as nat) is None,
                            self.rules_fault(rules@, j as nat, idx, parent@) is None,
                        decreases rules@.len() - j,
                    {
                        proof {
                            if rules@[j as int] is KeyOnOtherLayerIsTransparent {
                                self.layered_codes@[l as int].key_at(idx).lemma_constraints_order(
                                    j as int,
                                );
                                assert(self.rules_fault(rules@, j as nat, idx, parent@) is None);
                                assert(self.constraint_fault(rules@[j - 1], idx, parent@) is None);
                            }
                        }
                        match self.verify_key_constraint(&rules[j], idx, parent) {
                            Err(e) => {
                                proof {
                                    self.lemma_rules_fault_found(
                                        rules@,
                                        (j + 1) as nat,
                                        rules@.len(),
                                        idx,
                                        parent@,
                                    );
                                    self.lemma_row_fault_found(
                                        l as int,
                                        r,
                                        (c + 1) as nat,
                                        dim.1 as nat,
                                    );
                                    self.lemma_layer_fault_found(
                                        l as int,
                                        (r + 1) as nat,
                                        dim.0 as nat,
                                    );
                                    self.lemma_constraints_fault_found((l + 1) as nat, layers as nat);
                                }
                                return Err(e);
                            },
                            Ok(_) => {},
                        }
                        j += 1;
                    }
                    c += 1;
                }
                r += 1;
            }
            l += 1;
        }
        Ok(())
    }

    /// Verify that a single key constraint is met.
    fn verify_key_constraint(&self, constraint: &KeyConstraint, idx: Index2D, parent_layer: &str) -> (r:
        Result<(), String>)
        requires
            self.layers_paired(),
            self.layer_attributes@.wf(),
            self.layers_cover(self.layered_codes@.len()),
            self.matrix@.in_range(idx),
            constraint matches KeyConstraint::KeyOnOtherLayerIsTransparent(name)
                ==> self.layer_attributes@.contains(name@),
        ensures
            match r {
                Ok(_) => self.constraint_fault(*constraint, idx, parent_layer@) is None,
                Err(message) => self.constraint_fault(*constraint, idx, parent_layer@) == Some(
                    message@,
                ),
            },
    {
        match constraint {
            KeyConstraint::LayerExists(name) => {
                if !self.layer_attributes.contains(name.as_str()) {
                    Err(unknown_layer_text(idx, parent_layer, name.as_str()))
                } else {
                    Ok(())
                }
            },
            KeyConstraint::KeyOnOtherLayerIsTransparent(name) => {
                let layer_idx = self.layer_attributes.index_of(name.as_str()).unwrap();
                assert(self.layered_codes@[layer_idx as int].covers(self.matrix@.dim));
                let other_key = &self.layered_codes[layer_idx].codes[idx.0][idx.1];
                if !other_key.is_transparent() {
                    Err(not_transparent_text(idx, parent_layer, name.as_str()))
                } else {
                    Ok(())
                }
            },
        }
    }
}

} // verus!
