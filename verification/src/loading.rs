use crate::input_event::SimpleKey;
use crate::input_keyboard::InputKeyboard;
use crate::key_syntax::{
    agree_on, convert_tokens_to_key, lemma_agree_on_parts, lemma_normal_of_agrees,
    lemma_shape_of_agrees, names_in, normal_of, shape_of, symbol_names, text_views,
    transparent_fault, KeyShape,
};
use crate::keyboard_driver::KeyboardDriver;
use crate::keys::{KeyCode, NormalKey, TransparentKey};
use crate::layer::{KeyCodeMatrix, LayerAttributes, LayersState};
use crate::output_keyboard::OutputKeyboard;
use crate::parser::{token_fault, tokens_of, tree_of, ParsedKeyTree};
use crate::symbols::KeySymbols;
use crate::virtual_keyboard_matrix::{
    key_matrix_view, KeyMatrix, MatrixState, VirtualKeyboardMatrix,
};
use vstd::prelude::*;
use vstd::string::*;

verus! {

/// A table of texts as a mathematical value.
pub open spec fn text_table(rows: Seq<Vec<String>>) -> Seq<Seq<Seq<char>>> {
    rows.map_values(|row: Vec<String>| row@.map_values(|cell: String| cell@))
}

/// True when the rows are not all as long as the first.
pub open spec fn is_jagged<T>(rows: Seq<Seq<T>>) -> bool {
    exists|r: int| 0 <= r < rows.len() && (#[trigger] rows[r]).len() != rows[0].len()
}

/// The key that the cell of a matrix file describes, or why it describes
/// none: a hardware key, or a transparent key for a place without a key.
pub open spec fn cell_key_of(cell: Seq<char>, symbols: Map<Seq<char>, u16>) -> Result<
    Option<SimpleKey>,
    Seq<char>,
> {
    if cell.len() == 0 {
        Err("Key description is empty."@)
    } else {
        match token_fault(tokens_of(cell)) {
            Some(fault) => Err(fault),
            None => {
                let tree = tree_of(cell);
                if normal_of(tree, symbols) is Ok {
                    Ok(Some(normal_of(tree, symbols)->Ok_0))
                } else if transparent_fault(tree) is None {
                    Ok(None)
                } else {
                    Err("Couldn't convert "@ + cell + " into a code."@)
                }
            },
        }
    }
}

/// The keys that the first `n` cells of `row` describe, or why the first
/// cell that describes none does not.
pub open spec fn row_keys_of(row: Seq<Seq<char>>, n: nat, symbols: Map<Seq<char>, u16>) -> Result<
    Seq<Option<SimpleKey>>,
    Seq<char>,
>
    decreases n,
{
    if n == 0 {
        Ok(Seq::empty())
    } else {
        match row_keys_of(row, (n - 1) as nat, symbols) {
            Err(fault) => Err(fault),
            Ok(keys) => match cell_key_of(row[n - 1], symbols) {
                Err(fault) => Err(fault),
                Ok(key) => Ok(keys.push(key)),
            },
        }
    }
}

/// The keys that the first `n` of `rows` describe, or why the first cell
/// in reading order that describes none does not.
pub open spec fn rows_keys_of(
    rows: Seq<Seq<Seq<char>>>,
    n: nat,
    symbols: Map<Seq<char>, u16>,
) -> Result<Seq<Seq<Option<SimpleKey>>>, Seq<char>>
    decreases n,
{
    if n == 0 {
        Ok(Seq::empty())
    } else {
        match rows_keys_of(rows, (n - 1) as nat, symbols) {
            Err(fault) => Err(fault),
            Ok(keys) => match row_keys_of(rows[n - 1], rows[n - 1].len(), symbols) {
                Err(fault) => Err(fault),
                Ok(row) => Ok(keys.push(row)),
            },
        }
    }
}

/// The key matrix that `rows` describe, or why they describe none: each
/// cell describes a hardware key or a place without one, and all rows
/// have the same length.
pub open spec fn key_matrix_of(rows: Seq<Seq<Seq<char>>>, symbols: Map<Seq<char>, u16>) -> Result<
    Seq<Seq<Option<SimpleKey>>>,
    Seq<char>,
> {
    match rows_keys_of(rows, rows.len(), symbols) {
        Err(fault) => Err(fault),
        Ok(keys) => if is_jagged(keys) {
            Err("The rows of the matrix differ in length."@)
        } else {
            Ok(keys)
        },
    }
}

/// Where the first `n` cells do not all describe keys, neither do the
/// first `m`, for every larger `m`, and for the same reason.
pub proof fn lemma_row_keys_fail(row: Seq<Seq<char>>, n: nat, m: nat, symbols: Map<Seq<char>, u16>)
    requires
        n <= m,
        row_keys_of(row, n, symbols) is Err,
    ensures
        row_keys_of(row, m, symbols) == row_keys_of(row, n, symbols),
    decreases m,
{
    if n < m {
        lemma_row_keys_fail(row, n, (m - 1) as nat, symbols);
    }
}

/// Where the first `n` rows do not all describe keys, neither do the
/// first `m`, for every larger `m`, and for the same reason.
pub proof fn lemma_rows_keys_fail(
    rows: Seq<Seq<Seq<char>>>,
    n: nat,
    m: nat,
    symbols: Map<Seq<char>, u16>,
)
    requires
        n <= m,
        rows_keys_of(rows, n, symbols) is Err,
    ensures
        rows_keys_of(rows, m, symbols) == rows_keys_of(rows, n, symbols),
    decreases m,
{
    if n < m {
        lemma_rows_keys_fail(rows, n, (m - 1) as nat, symbols);
    }
}

/// Tells whether the rows are not all as long as the first.
fn has_uneven_rows<T>(rows: &Vec<Vec<T>>) -> (uneven: bool)
    ensures
        uneven == is_jagged(rows@.map_values(|row: Vec<T>| row@)),
{
    let ghost table = rows@.map_values(|row: Vec<T>| row@);
    let mut r: usize = 0;
    while r < rows.len()
        invariant
            r <= rows@.len(),
            table == rows@.map_values(|row: Vec<T>| row@),
            forall|k: int| 0 <= k < r ==> (#[trigger] table[k]).len() == table[0].len(),
        decreases rows@.len() - r,
    {
        if rows[r].len() != rows[0].len() {
            assert(table[r as int].len() != table[0].len());
            return true;
        }
        r += 1;
    }
    false
}

/// The key that one cell of a matrix file describes.
fn cell_key(cell: &str, symbols: &KeySymbols) -> (r: Result<Option<SimpleKey>, String>)
    ensures
        match r {
            Ok(key) => cell_key_of(cell@, symbols@) == Ok::<Option<SimpleKey>, Seq<char>>(key),
            Err(message) => cell_key_of(cell@, symbols@) == Err::<Option<SimpleKey>, Seq<char>>(
                message@,
            ),
        },
{
    if cell.unicode_len() == 0 {
        return Err(String::from_str("Key description is empty."));
    }
    let tokenized = match ParsedKeyTree::create(cell) {
        Ok(tree) => tree,
        Err(e) => {
            return Err(e);
        },
    };

    // Try to parse it as a NormalKey.
    // If that fails, try a transparent key.
    // If both options fail then error.
    match NormalKey::from_tokens(&tokenized, symbols) {
        Ok(key) => {
            return Ok(Some(key.value));
        },
        Err(_) => {},
    }
    match TransparentKey::from_tokens(&tokenized) {
        Ok(_) => Ok(None),
        Err(_) => {
            let mut message = String::from_str("Couldn't convert ");
            message.append(cell);
            message.append(" into a code.");
            Err(message)
        },
    }
}

impl VirtualKeyboardMatrix {
    /// Make a keyboard matrix from the cells of a matrix file.
    pub fn from_cells(cells: &Vec<Vec<String>>, symbols: &KeySymbols) -> (r: Result<
        VirtualKeyboardMatrix,
        String,
    >)
        ensures
            match r {
                Ok(matrix) => matrix.wf() && key_matrix_of(text_table(cells@), symbols@) is Ok
                    && matrix@ == MatrixState::initial(
                    key_matrix_of(text_table(cells@), symbols@)->Ok_0,
                    None,
                ),
                Err(message) => key_matrix_of(text_table(cells@), symbols@) == Err::<
                    Seq<Seq<Option<SimpleKey>>>,
                    Seq<char>,
                >(message@),
            },
    {
        let ghost table = text_table(cells@);
        let mut mat: KeyMatrix = Vec::new();
        let mut r: usize = 0;
        assert(key_matrix_view(&mat) =~= Seq::<Seq<Option<SimpleKey>>>::empty());
        while r < cells.len()
            invariant
                r <= cells@.len(),
                table == text_table(cells@),
                rows_keys_of(table, r as nat, symbols@) == Ok::<
                    Seq<Seq<Option<SimpleKey>>>,
                    Seq<char>,
                >(key_matrix_view(&mat)),
            decreases cells@.len() - r,
        {
            let mut row: Vec<Option<SimpleKey>> = Vec::new();
            let mut c: usize = 0;
            while c < cells[r as usize].len()
                invariant
                    r < cells@.len(),
                    c <= cells@[r as int]@.len(),
                    table == text_table(cells@),
                    table[r as int].len() == cells@[r as int]@.len(),
                    row_keys_of(table[r as int], c as nat, symbols@) == Ok::<
                        Seq<Option<SimpleKey>>,
                        Seq<char>,
                    >(row@),
                    rows_keys_of(table, r as nat, symbols@) is Ok,
                decreases cells@[r as int]@.len() - c,
            {
                assert(table[r as int][c as int] == cells@[r as int]@[c as int]@);
                match cell_key(cells[r][c].as_str(), symbols) {
                    Ok(code) => {
                        row.push(code);
                    },
                    Err(e) => {
                        proof {
                            assert(row_keys_of(table[r as int], (c + 1) as nat, symbols@) == Err::<
                                Seq<Option<SimpleKey>>,
                                Seq<char>,
                            >(e@));
                            lemma_row_keys_fail(
                                table[r as int],
                                (c + 1) as nat,
                                table[r as int].len(),
                                symbols@,
                            );
                            assert(rows_keys_of(table, (r + 1) as nat, symbols@) == Err::<
                                Seq<Seq<Option<SimpleKey>>>,
                                Seq<char>,
                            >(e@));
                            lemma_rows_keys_fail(table, (r + 1) as nat, table.len(), symbols@);
                        }
                        return Err(e);
                    },
                }
                c += 1;
            }
            proof {
                assert(key_matrix_view(&mat).push(row@) =~= mat@.push(row).map_values(
                    |row: Vec<Option<SimpleKey>>| row@,
                ));
            }
            mat.push(row);
            r += 1;
        }
        if has_uneven_rows(&mat) {
            return Err(String::from_str("The rows of the matrix differ in length."));
        }
        Ok(VirtualKeyboardMatrix::new(mat, None))
    }
}

/// A layer as a layer file describes it: its name, whether it is enabled
/// at first, and the text of each of its keys.
pub struct LayerDescription {
    pub name: String,
    pub enabled: bool,
    pub keys: Vec<Vec<String>>,
}

/// The keys of a layer as mathematical values.
pub open spec fn shape_table(codes: Seq<Vec<KeyCode>>) -> Seq<Seq<KeyShape>> {
    codes.map_values(|row: Vec<KeyCode>| row@.map_values(|key: KeyCode| key.shape()))
}

/// The key that the cell of a layer file describes, or why it describes none.
pub open spec fn cell_shape_of(cell: Seq<char>, symbols: Map<Seq<char>, u16>) -> Result<
    KeyShape,
    Seq<char>,
> {
    if cell.len() == 0 {
        Err("Key description is empty."@)
    } else {
        match token_fault(tokens_of(cell)) {
            Some(fault) => Err(fault),
            None => shape_of(tree_of(cell), symbols),
        }
    }
}

/// The keys that the first `n` cells of `row` describe, or why the first
/// cell that describes none does not.
pub open spec fn row_shapes_of(row: Seq<Seq<char>>, n: nat, symbols: Map<Seq<char>, u16>) -> Result<
    Seq<KeyShape>,
    Seq<char>,
>
    decreases n,
{
    if n == 0 {
        Ok(Seq::empty())
    } else {
        match row_shapes_of(row, (n - 1) as nat, symbols) {
            Err(fault) => Err(fault),
            Ok(keys) => match cell_shape_of(row[n - 1], symbols) {
                Err(fault) => Err(fault),
                Ok(key) => Ok(keys.push(key)),
            },
        }
    }
}

/// The keys that the first `n` of `rows` describe, or why the first cell
/// in reading order that describes none does not.
pub open spec fn rows_shapes_of(
    rows: Seq<Seq<Seq<char>>>,
    n: nat,
    symbols: Map<Seq<char>, u16>,
) -> Result<Seq<Seq<KeyShape>>, Seq<char>>
    decreases n,
{
    if n == 0 {
        Ok(Seq::empty())
    } else {
        match rows_shapes_of(rows, (n - 1) as nat, symbols) {
            Err(fault) => Err(fault),
            Ok(keys) => match row_shapes_of(rows[n - 1], rows[n - 1].len(), symbols) {
                Err(fault) => Err(fault),
                Ok(row) => Ok(keys.push(row)),
            },
        }
    }
}

/// The keys of the layer that `rows` describe, or why they describe
/// none: each cell describes a key, and all rows have the same length.
pub open spec fn layer_keys_of(rows: Seq<Seq<Seq<char>>>, symbols: Map<Seq<char>, u16>) -> Result<
    Seq<Seq<KeyShape>>,
    Seq<char>,
> {
    match rows_shapes_of(rows, rows.len(), symbols) {
        Err(fault) => Err(fault),
        Ok(keys) => if is_jagged(keys) {
            Err("The rows of a layer differ in length."@)
        } else {
            Ok(keys)
        },
    }
}

/// Where the first `n` cells do not all describe keys, neither do the
/// first `m`, for every larger `m`, and for the same reason.
pub proof fn lemma_row_shapes_fail(row: Seq<Seq<char>>, n: nat, m: nat, symbols: Map<Seq<char>, u16>)
    requires
        n <= m,
        row_shapes_of(row, n, symbols) is Err,
    ensures
        row_shapes_of(row, m, symbols) == row_shapes_of(row, n, symbols),
    decreases m,
{
    if n < m {
        lemma_row_shapes_fail(row, n, (m - 1) as nat, symbols);
    }
}

/// Where the first `n` rows do not all describe keys, neither do the
/// first `m`, for every larger `m`, and for the same reason.
pub proof fn lemma_rows_shapes_fail(
    rows: Seq<Seq<Seq<char>>>,
    n: nat,
    m: nat,
    symbols: Map<Seq<char>, u16>,
)
    requires
        n <= m,
        rows_shapes_of(rows, n, symbols) is Err,
    ensures
        rows_shapes_of(rows, m, symbols) == rows_shapes_of(rows, n, symbols),
    decreases m,
{
    if n < m {
        lemma_rows_shapes_fail(rows, n, (m - 1) as nat, symbols);
    }
}

/// What is wrong with the first `n` of `layers`: the fault of the first
/// layer whose keys have one.
pub open spec fn layers_fault(
    layers: Seq<LayerDescription>,
    n: nat,
    symbols: Map<Seq<char>, u16>,
) -> Option<Seq<char>>
    decreases n,
{
    if n == 0 {
        None
    } else {
        match layers_fault(layers, (n - 1) as nat, symbols) {
            Some(fault) => Some(fault),
            None => match layer_keys_of(text_table(layers[n - 1].keys@), symbols) {
                Err(fault) => Some(fault),
                Ok(_) => None,
            },
        }
    }
}

/// A fault among the first `n` layers is the fault among the first `m`,
/// for every larger `m`.
pub proof fn lemma_layers_fault_found(
    layers: Seq<LayerDescription>,
    n: nat,
    m: nat,
    symbols: Map<Seq<char>, u16>,
)
    requires
        n <= m,
        layers_fault(layers, n, symbols) is Some,
    ensures
        layers_fault(layers, m, symbols) == layers_fault(layers, n, symbols),
    decreases m,
{
    if n < m {
        lemma_layers_fault_found(layers, n, (m - 1) as nat, symbols);
    }
}

/// The collection `state` with the first `n` of `layers` added in their order.
pub open spec fn with_layers(state: LayersState, layers: Seq<LayerDescription>, n: nat) -> LayersState
    decreases n,
{
    if n == 0 {
        state
    } else {
        with_layers(state, layers, (n - 1) as nat).add(
            LayerAttributes { name: layers[n - 1].name, enabled: layers[n - 1].enabled },
        )
    }
}

/// The key that a text describes, as the cell of a layer file does.
pub fn key_from_text(cell: &str, symbols: &KeySymbols) -> (r: Result<KeyCode, String>)
    ensures
        match r {
            Ok(key) => cell_shape_of(cell@, symbols@) == Ok::<KeyShape, Seq<char>>(key.shape()),
            Err(message) => cell_shape_of(cell@, symbols@) == Err::<KeyShape, Seq<char>>(message@),
        },
{
    if cell.unicode_len() == 0 {
        return Err(String::from_str("Key description is empty."));
    }
    let parsed = match ParsedKeyTree::create(cell) {
        Ok(tree) => tree,
        Err(e) => {
            return Err(e);
        },
    };
    match convert_tokens_to_key(&parsed, symbols) {
        Ok(key) => Ok(*key),
        Err(e) => Err(e),
    }
}

impl KeyCodeMatrix {
    /// The matrix of the keys that the cells of a layer file describe.
    pub fn from_cells(cells: &Vec<Vec<String>>, symbols: &KeySymbols) -> (r: Result<KeyCodeMatrix, String>)
        ensures
            match r {
                Ok(matrix) => layer_keys_of(text_table(cells@), symbols@) == Ok::<
                    Seq<Seq<KeyShape>>,
                    Seq<char>,
                >(shape_table(matrix.codes@)),
                Err(message) => layer_keys_of(text_table(cells@), symbols@) == Err::<
                    Seq<Seq<KeyShape>>,
                    Seq<char>,
                >(message@),
            },
    {
        let ghost table = text_table(cells@);
        let mut ans = KeyCodeMatrix::new((0, 0));
        let mut r: usize = 0;
        assert(shape_table(ans.codes@) =~= Seq::<Seq<KeyShape>>::empty());
        while r < cells.len()
            invariant
                r <= cells@.len(),
                table == text_table(cells@),
                rows_shapes_of(table, r as nat, symbols@) == Ok::<Seq<Seq<KeyShape>>, Seq<char>>(
                    shape_table(ans.codes@),
                ),
            decreases cells@.len() - r,
        {
            let mut row: Vec<KeyCode> = Vec::new();
            let ghost mut shapes: Seq<KeyShape> = Seq::empty();
            let mut c: usize = 0;
            while c < cells[r as usize].len()
                invariant
                    r < cells@.len(),
                    c <= cells@[r as int]@.len(),
                    table == text_table(cells@),
                    table[r as int].len() == cells@[r as int]@.len(),
                    shapes == row@.map_values(|key: KeyCode| key.shape()),
                    row_shapes_of(table[r as int], c as nat, symbols@) == Ok::<
                        Seq<KeyShape>,
                        Seq<char>,
                    >(shapes),
                    rows_shapes_of(table, r as nat, symbols@) is Ok,
                decreases cells@[r as int]@.len() - c,
            {
                assert(table[r as int][c as int] == cells@[r as int]@[c as int]@);
                match key_from_text(cells[r][c].as_str(), symbols) {
                    Ok(code) => {
                        proof {
                            shapes = shapes.push(code.shape());
                            assert(shapes =~= row@.push(code).map_values(
                                |key: KeyCode| key.shape(),
                            ));
                        }
                        row.push(code);
                    },
                    Err(e) => {
                        proof {
                            assert(row_shapes_of(table[r as int], (c + 1) as nat, symbols@)
                                == Err::<Seq<KeyShape>, Seq<char>>(e@));
                            lemma_row_shapes_fail(
                                table[r as int],
                                (c + 1) as nat,
                                table[r as int].len(),
                                symbols@,
                            );
                            assert(rows_shapes_of(table, (r + 1) as nat, symbols@) == Err::<
                                Seq<Seq<KeyShape>>,
                                Seq<char>,
                            >(e@));
                            lemma_rows_shapes_fail(table, (r + 1) as nat, table.len(), symbols@);
                        }
                        return Err(e);
                    },
                }
                c += 1;
            }
            proof {
                assert(shape_table(ans.codes@).push(shapes) =~= shape_table(ans.codes@.push(row)));
            }
            ans.codes.push(row);
            r += 1;
        }
        let uneven = has_uneven_rows(&ans.codes);
        proof {
            let plain = ans.codes@.map_values(|row: Vec<KeyCode>| row@);
            let shaped = shape_table(ans.codes@);
            assert(plain.len() == shaped.len());
            assert forall|k: int| 0 <= k < plain.len() implies (#[trigger] plain[k]).len()
                == shaped[k].len() by {}
            if is_jagged(plain) {
                let k = choose|k: int| 0 <= k < plain.len() && (#[trigger] plain[k]).len()
                    != plain[0].len();
                assert(shaped[k].len() != shaped[0].len());
            }
            if is_jagged(shaped) {
                let k = choose|k: int| 0 <= k < shaped.len() && (#[trigger] shaped[k]).len()
                    != shaped[0].len();
                assert(plain[k].len() != plain[0].len());
            }
        }
        if uneven {
            return Err(String::from_str("The rows of a layer differ in length."));
        }
        Ok(ans)
    }
}

impl<I, O> KeyboardDriver<I, O> where I: InputKeyboard, O: OutputKeyboard {
    /// Adds the layers that a layer file describes, in the order of the
    /// file. Where a layer has a fault, the driver stays as it is.
    pub fn add_layers(&mut self, layers: &Vec<LayerDescription>, symbols: &KeySymbols) -> (r:
        Result<(), String>)
        ensures
            final(self).input == old(self).input,
            final(self).output == old(self).output,
            final(self).matrix == old(self).matrix,
            match r {
                Ok(_) => {
                    &&& layers_fault(layers@, layers@.len(), symbols@) is None
                    &&& final(self).layer_attributes@ == with_layers(
                        old(self).layer_attributes@,
                        layers@,
                        layers@.len(),
                    )
                    &&& final(self).layered_codes@.len() == old(self).layered_codes@.len()
                        + layers@.len()
                    &&& forall|i: int|
                        0 <= i < old(self).layered_codes@.len() ==> #[trigger] final(self).layered_codes@[i] == old(self).layered_codes@[i]
                    &&& forall|i: int|
                        0 <= i < layers@.len() ==> layer_keys_of(
                            text_table(layers@[i].keys@),
                            symbols@,
                        ) == Ok::<Seq<Seq<KeyShape>>, Seq<char>>(
                            shape_table(
                                (#[trigger] final(self).layered_codes@[old(self).layered_codes@.len() + i]).codes@,
                            ),
                        )
                },
                Err(message) => {
                    &&& layers_fault(layers@, layers@.len(), symbols@) == Some(message@)
                    &&& final(self).layer_attributes == old(self).layer_attributes
                    &&& final(self).layered_codes == old(self).layered_codes
                },
            },
    {
        // Load the key matrix of every layer.
        let mut matrices: Vec<KeyCodeMatrix> = Vec::new();
        let mut i: usize = 0;
        while i < layers.len()
            invariant
                i <= layers@.len(),
                *self == *old(self),
                matrices@.len() == i,
                layers_fault(layers@, i as nat, symbols@) is None,
                forall|k: int|
                    0 <= k < i ==> layer_keys_of(text_table(layers@[k].keys@), symbols@) == Ok::<
                        Seq<Seq<KeyShape>>,
                        Seq<char>,
                    >(shape_table((#[trigger] matrices@[k]).codes@)),
            decreases layers@.len() - i,
        {
            match KeyCodeMatrix::from_cells(&layers[i].keys, symbols) {
                Ok(matrix) => {
                    matrices.push(matrix);
                },
                Err(e) => {
                    proof {
                        lemma_layers_fault_found(layers@, (i + 1) as nat, layers@.len(), symbols@);
                    }
                    return Err(e);
                },
            }
            i += 1;
        }

        // Populate the attributes and the keys of the layers.
        let ghost loaded = matrices@;
        let ghost before = self.layered_codes@.len();
        let mut j: usize = 0;
        while j < layers.len()
            invariant
                j <= layers@.len(),
                loaded.len() == layers@.len(),
                matrices@ == loaded.skip(j as int),
                before == old(self).layered_codes@.len(),
                self.input == old(self).input,
                self.output == old(self).output,
                self.matrix == old(self).matrix,
                self.layer_attributes@ == with_layers(
                    old(self).layer_attributes@,
                    layers@,
                    j as nat,
                ),
                self.layered_codes@ == old(self).layered_codes@ + loaded.take(j as int),
            decreases layers@.len() - j,
        {
            let l = &layers[j];
            let codes = matrices.remove(0);
            proof {
                assert(matrices@ =~= loaded.skip(j + 1));
                assert(loaded.take(j as int).push(codes) =~= loaded.take(j + 1));
            }
            self.add_layer(LayerAttributes { name: l.name.clone(), enabled: l.enabled }, codes);
            proof {
                assert(self.layered_codes@ =~= old(self).layered_codes@ + loaded.take(j + 1));
            }
            j += 1;
        }
        Ok(())
    }
}


/// The names of hardware keys that the cell of a file asks for: those
/// of its tree, and none where the cell is empty or its tokens have a fault.
pub open spec fn cell_names(cell: Seq<char>) -> Seq<Seq<char>> {
    if cell.len() == 0 || token_fault(tokens_of(cell)) is Some {
        Seq::empty()
    } else {
        names_in(tree_of(cell))
    }
}

/// The names that the first `n` cells of `row` ask for, in their order.
pub open spec fn row_names(row: Seq<Seq<char>>, n: nat) -> Seq<Seq<char>>
    decreases n,
{
    if n == 0 {
        Seq::empty()
    } else {
        row_names(row, (n - 1) as nat) + cell_names(row[n - 1])
    }
}

/// The names that the first `n` of `rows` ask for, in reading order.
pub open spec fn table_names(rows: Seq<Seq<Seq<char>>>, n: nat) -> Seq<Seq<char>>
    decreases n,
{
    if n == 0 {
        Seq::empty()
    } else {
        table_names(rows, (n - 1) as nat) + row_names(rows[n - 1], rows[n - 1].len())
    }
}

/// The names of hardware keys that the cells of a matrix file or of a
/// layer ask for, in reading order: the names that a table of symbols has to
/// know for the cells to be read as they are meant.
pub fn wanted_symbols(cells: &Vec<Vec<String>>) -> (names: Vec<String>)
    ensures
        text_views(names@) == table_names(text_table(cells@), cells@.len()),
{
    let ghost table = text_table(cells@);
    let mut names: Vec<String> = Vec::new();
    let mut r: usize = 0;
    assert(text_views(names@) =~= table_names(table, 0));
    while r < cells.len()
        invariant
            r <= cells@.len(),
            table == text_table(cells@),
            text_views(names@) == table_names(table, r as nat),
        decreases cells@.len() - r,
    {
        let ghost done = text_views(names@);
        let mut c: usize = 0;
        assert(done + row_names(table[r as int], 0) =~= done);
        while c < cells[r as usize].len()
            invariant
                r < cells@.len(),
                c <= cells@[r as int]@.len(),
                table == text_table(cells@),
                table[r as int].len() == cells@[r as int]@.len(),
                text_views(names@) == done + row_names(table[r as int], c as nat),
            decreases cells@[r as int]@.len() - c,
        {
            assert(table[r as int][c as int] == cells@[r as int]@[c as int]@);
            let ghost so_far = text_views(names@);
            let cell = cells[r][c].as_str();
            if cell.unicode_len() > 0 {
                match ParsedKeyTree::create(cell) {
                    Ok(tree) => {
                        symbol_names(&tree, &mut names);
                    },
                    Err(_) => {},
                }
            }
            proof {
                assert(text_views(names@) == so_far + cell_names(table[r as int][c as int]));
                assert(so_far + cell_names(table[r as int][c as int]) =~= done + row_names(
                    table[r as int],
                    (c + 1) as nat,
                ));
            }
            c += 1;
        }
        proof {
            assert(text_views(names@) =~= table_names(table, (r + 1) as nat));
        }
        r += 1;
    }
    names
}


/// Tables that agree on the names that the first `n` cells of a row ask
/// for agree on the names that each of these cells asks for.
pub proof fn lemma_agree_on_cell(
    a: Map<Seq<char>, u16>,
    b: Map<Seq<char>, u16>,
    row: Seq<Seq<char>>,
    n: nat,
    k: int,
)
    requires
        0 <= k < n,
        agree_on(a, b, row_names(row, n)),
    ensures
        agree_on(a, b, cell_names(row[k])),
    decreases n,
{
    lemma_agree_on_parts(a, b, row_names(row, (n - 1) as nat), cell_names(row[n - 1]));
    if k < n - 1 {
        lemma_agree_on_cell(a, b, row, (n - 1) as nat, k);
    }
}

/// Tables that agree on the names that the first `n` rows ask for agree
/// on the names that each of these rows asks for.
pub proof fn lemma_agree_on_row(
    a: Map<Seq<char>, u16>,
    b: Map<Seq<char>, u16>,
    rows: Seq<Seq<Seq<char>>>,
    n: nat,
    k: int,
)
    requires
        0 <= k < n,
        agree_on(a, b, table_names(rows, n)),
    ensures
        agree_on(a, b, row_names(rows[k], rows[k].len())),
    decreases n,
{
    lemma_agree_on_parts(
        a,
        b,
        table_names(rows, (n - 1) as nat),
        row_names(rows[n - 1], rows[n - 1].len()),
    );
    if k < n - 1 {
        lemma_agree_on_row(a, b, rows, (n - 1) as nat, k);
    }
}

/// Tables that agree on the names that a cell asks for read the same key
/// in it, for a matrix and for a layer, or find the same fault.
pub proof fn lemma_cell_agrees(cell: Seq<char>, a: Map<Seq<char>, u16>, b: Map<Seq<char>, u16>)
    requires
        agree_on(a, b, cell_names(cell)),
    ensures
        cell_key_of(cell, a) == cell_key_of(cell, b),
        cell_shape_of(cell, a) == cell_shape_of(cell, b),
{
    if cell.len() > 0 && token_fault(tokens_of(cell)) is None {
        lemma_shape_of_agrees(tree_of(cell), a, b);
        lemma_normal_of_agrees(tree_of(cell), a, b);
    }
}

/// Tables that agree on the names that the first `n` cells of a row ask
/// for read the same keys in them, or find the same fault.
pub proof fn lemma_row_agrees(
    row: Seq<Seq<char>>,
    n: nat,
    m: nat,
    a: Map<Seq<char>, u16>,
    b: Map<Seq<char>, u16>,
)
    requires
        n <= m,
        agree_on(a, b, row_names(row, m)),
    ensures
        row_keys_of(row, n, a) == row_keys_of(row, n, b),
        row_shapes_of(row, n, a) == row_shapes_of(row, n, b),
    decreases n,
{
    if n > 0 {
        lemma_row_agrees(row, (n - 1) as nat, m, a, b);
        lemma_agree_on_cell(a, b, row, m, n - 1);
        lemma_cell_agrees(row[n - 1], a, b);
    }
}

/// Tables that agree on the names that the first `n` rows ask for read
/// the same keys in them, or find the same fault.
pub proof fn lemma_rows_agree(
    rows: Seq<Seq<Seq<char>>>,
    n: nat,
    m: nat,
    a: Map<Seq<char>, u16>,
    b: Map<Seq<char>, u16>,
)
    requires
        n <= m,
        agree_on(a, b, table_names(rows, m)),
    ensures
        rows_keys_of(rows, n, a) == rows_keys_of(rows, n, b),
        rows_shapes_of(rows, n, a) == rows_shapes_of(rows, n, b),
    decreases n,
{
    if n > 0 {
        lemma_rows_agree(rows, (n - 1) as nat, m, a, b);
        lemma_agree_on_row(a, b, rows, m, n - 1);
        lemma_row_agrees(rows[n - 1], rows[n - 1].len(), rows[n - 1].len(), a, b);
    }
}

/// The names that the cells of a file ask for are all that a table of
/// symbols has to know: two tables that agree on them read the same
/// matrix and the same layer in the cells, or find the same fault.
pub proof fn lemma_wanted_symbols_suffice(
    rows: Seq<Seq<Seq<char>>>,
    a: Map<Seq<char>, u16>,
    b: Map<Seq<char>, u16>,
)
    requires
        agree_on(a, b, table_names(rows, rows.len())),
    ensures
        key_matrix_of(rows, a) == key_matrix_of(rows, b),
        layer_keys_of(rows, a) == layer_keys_of(rows, b),
{
    lemma_rows_agree(rows, rows.len(), rows.len(), a, b);
}

} // verus!
