use crate::input_keyboard::InputKeyboard;
use crate::keyboard_driver::KeyboardDriver;
use crate::key_syntax::{text_views, KeyShape};
use crate::layer::LayersState;
use crate::loading::{
    key_matrix_of, layer_keys_of, layers_fault, shape_table, table_names, text_table,
    wanted_symbols, with_layers, LayerDescription,
};
use crate::output_keyboard::OutputKeyboard;
use crate::symbols::KeySymbols;
use crate::virtual_keyboard_matrix::{MatrixState, VirtualKeyboardMatrix};
use json::JsonValue;
use vstd::prelude::*;
use vstd::string::*;
use vstd::utf8::encode_utf8;

verus! {

/// A value of a JSON document, as the crate `json` holds it.
#[verifier::external_type_specification]
#[verifier::external_body]
pub struct ExJsonValue(json::JsonValue);

/// What the crate `json` found wrong with a text.
#[verifier::external_type_specification]
#[verifier::external_body]
pub struct ExJsonError(json::Error);

/// A value of a JSON document as a mathematical value, as far as the
/// library reads it: texts, truth values, arrays and objects. Null and
/// numbers count as other values.
pub enum JsonTree {
    Text(Seq<char>),
    Flag(bool),
    Array(Seq<JsonTree>),
    Object(Map<Seq<char>, JsonTree>),
    Other,
}

impl JsonTree {
    /// The value under `name` in an object; another value where the
    /// object has none of that name, and for every value that is no object.
    pub open spec fn field(self, name: Seq<char>) -> JsonTree {
        match self {
            JsonTree::Object(fields) => if fields.contains_key(name) {
                fields[name]
            } else {
                JsonTree::Other
            },
            _ => JsonTree::Other,
        }
    }

    /// The members of an array in their order; none for a value that is
    /// no array.
    pub open spec fn items(self) -> Seq<JsonTree> {
        match self {
            JsonTree::Array(items) => items,
            _ => Seq::empty(),
        }
    }

    /// The text of a value that is a text.
    pub open spec fn text(self) -> Option<Seq<char>> {
        match self {
            JsonTree::Text(t) => Some(t),
            _ => None,
        }
    }

    /// The truth value of a value that is one.
    pub open spec fn flag(self) -> Option<bool> {
        match self {
            JsonTree::Flag(b) => Some(b),
            _ => None,
        }
    }
}

/// What a value of the crate `json` holds.
pub uninterp spec fn json_tree(value: JsonValue) -> JsonTree;

/// What `json::parse` makes of a text: the document that the text spells,
/// and nothing where the text spells none.
pub uninterp spec fn json_parsed(text: Seq<char>) -> Option<JsonTree>;

/// `json::parse`: the document that the text spells, or what is wrong
/// with the text. The document is a function of the text alone, which
/// `json_parsed` names; nothing is claimed of the fault. The call counts the
/// digits of a fraction down from 0 in a 16-bit number, so a text with a
/// fraction of more digits than that number can count is left out.
#[verifier::external_body]
fn parse_json(text: &str) -> (r: Result<JsonValue, json::Error>)
    requires
        fractions_fit(text.spec_bytes()),
    ensures
        r matches Ok(value) ==> json_parsed(text@) == Some(json_tree(value)),
        r is Err ==> json_parsed(text@) is None,
{
    json::parse(text)
}

/// True for the bytes of the ten decimal digits.
pub open spec fn is_digit_byte(b: u8) -> bool {
    48 <= b <= 57
}

/// How many digits stand in a row at the end of the first `n` of `bytes`,
/// where a dot stands right before the first of them; 0 where the row
/// does not begin behind a dot.
pub open spec fn digits_behind_dot(bytes: Seq<u8>, n: nat) -> nat
    decreases n,
{
    if n == 0 || !is_digit_byte(bytes[n - 1]) {
        0
    } else if n >= 2 && bytes[n - 2] == 46 {
        1
    } else {
        let before = digits_behind_dot(bytes, (n - 1) as nat);
        if before > 0 {
            before + 1
        } else {
            0
        }
    }
}

/// The most digits that the fraction of a number may have for the crate
/// `json` to count them: it counts them down from 0 in a 16-bit number.
pub const MAX_FRACTION_DIGITS: usize = 32767;

/// True when no dot in the text is followed by more digits in a row
/// than `MAX_FRACTION_DIGITS`.
pub open spec fn fractions_fit(bytes: Seq<u8>) -> bool {
    forall|n: nat| n <= bytes.len() ==> #[trigger] digits_behind_dot(bytes, n) <= MAX_FRACTION_DIGITS
}

/// True when the text can be handed to the reader of documents.
pub open spec fn readable(document: Seq<char>) -> bool {
    fractions_fit(encode_utf8(document))
}

/// What is said of a document with a fraction of too many digits.
pub open spec fn long_fraction_message() -> Seq<char> {
    "A number of the document has too many digits behind the dot."@
}

/// Tells whether no dot in the text is followed by more digits in a row
/// than `MAX_FRACTION_DIGITS`.
pub fn fractions_are_short(text: &str) -> (ok: bool)
    ensures
        ok == readable(text@),
{
    let bytes = text.as_bytes();
    let mut run: usize = 0;
    let mut i: usize = 0;
    while i < bytes.len()
        invariant
            i <= bytes@.len(),
            bytes@ == encode_utf8(text@),
            run == digits_behind_dot(bytes@, i as nat),
            run <= MAX_FRACTION_DIGITS,
            forall|n: nat| n <= i ==> #[trigger] digits_behind_dot(bytes@, n) <= MAX_FRACTION_DIGITS,
        decreases bytes@.len() - i,
    {
        let b = bytes[i];
        if 48 <= b && b <= 57 {
            if i >= 1 && bytes[i - 1] == 46 {
                run = 1;
            } else if run > 0 {
                run = run + 1;
            }
        } else {
            run = 0;
        }
        if run > MAX_FRACTION_DIGITS {
            assert(digits_behind_dot(bytes@, (i + 1) as nat) > MAX_FRACTION_DIGITS);
            return false;
        }
        i += 1;
    }
    true
}

/// Reads the text of a document: nothing is read of a text with a
/// fraction of too many digits.
fn read_document(document: &str) -> (r: Result<JsonValue, String>)
    ensures
        match r {
            Ok(value) => readable(document@) && json_parsed(document@) == Some(json_tree(value)),
            Err(message) => if readable(document@) {
                json_parsed(document@) is None
            } else {
                message@ == long_fraction_message()
            },
        },
{
    if !fractions_are_short(document) {
        return Err(String::from_str("A number of the document has too many digits behind the dot."));
    }
    match parse_json(document) {
        Ok(data) => Ok(data),
        Err(e) => Err(json_fault(&e)),
    }
}

/// The `Display` of `json::Error`: the fault in words. Nothing is
/// claimed of the words.
#[verifier::external_body]
fn json_fault(e: &json::Error) -> String {
    format!("{}", e)
}

/// Indexing of `json::JsonValue` by a name: the value under that name in
/// an object, and a null value where the object has none of that name and
/// for every value that is no object.
#[verifier::external_body]
fn json_field<'a>(value: &'a JsonValue, name: &str) -> (r: &'a JsonValue)
    ensures
        json_tree(*r) == json_tree(*value).field(name@),
{
    &value[name]
}

/// `json::JsonValue::members`: the members of an array in their order,
/// none for a value of another kind.
#[verifier::external_body]
fn json_members(value: &JsonValue) -> (r: Vec<&JsonValue>)
    ensures
        r@.len() == json_tree(*value).items().len(),
        forall|i: int|
            0 <= i < r@.len() ==> json_tree(*#[trigger] r@[i]) == json_tree(*value).items()[i],
{
    value.members().collect()
}

/// `json::JsonValue::as_str`: the text of a value that is a string, nothing
/// for a value of another kind.
#[verifier::external_body]
fn json_text(value: &JsonValue) -> (r: Option<&str>)
    ensures
        match r {
            Some(text) => json_tree(*value).text() == Some(text@),
            None => json_tree(*value).text() is None,
        },
{
    value.as_str()
}

/// `json::JsonValue::as_bool`: the truth value of a value that is one,
/// nothing for a value of another kind.
#[verifier::external_body]
fn json_flag(value: &JsonValue) -> (r: Option<bool>)
    ensures
        r == json_tree(*value).flag(),
{
    value.as_bool()
}

/// The texts of the first `n` of `cells`, or why they are not all texts.
pub open spec fn row_texts(cells: Seq<JsonTree>, n: nat) -> Result<Seq<Seq<char>>, Seq<char>>
    decreases n,
{
    if n == 0 {
        Ok(Seq::empty())
    } else {
        match row_texts(cells, (n - 1) as nat) {
            Err(fault) => Err(fault),
            Ok(texts) => match cells[n - 1].text() {
                Some(text) => Ok(texts.push(text)),
                None => Err("A key of the document is not a text."@),
            },
        }
    }
}

/// The texts of the members of the first `n` of `rows`, or why they are
/// not all texts.
pub open spec fn rows_texts(rows: Seq<JsonTree>, n: nat) -> Result<Seq<Seq<Seq<char>>>, Seq<char>>
    decreases n,
{
    if n == 0 {
        Ok(Seq::empty())
    } else {
        match rows_texts(rows, (n - 1) as nat) {
            Err(fault) => Err(fault),
            Ok(table) => match row_texts(rows[n - 1].items(), rows[n - 1].items().len()) {
                Err(fault) => Err(fault),
                Ok(texts) => Ok(table.push(texts)),
            },
        }
    }
}

/// The table of texts that a value holds as an array of arrays of
/// texts: a row for each member, a cell for each member of a member. A
/// value that is no array holds no row, and a member that is no array no
/// cell; a cell that is no text is a fault.
pub open spec fn table_of(tree: JsonTree) -> Result<Seq<Seq<Seq<char>>>, Seq<char>> {
    rows_texts(tree.items(), tree.items().len())
}

/// Where the first `n` cells are not all texts, neither are the first
/// `m`, for every larger `m`.
pub proof fn lemma_row_texts_fail(cells: Seq<JsonTree>, n: nat, m: nat)
    requires
        n <= m,
        row_texts(cells, n) is Err,
    ensures
        row_texts(cells, m) == row_texts(cells, n),
    decreases m,
{
    if n < m {
        lemma_row_texts_fail(cells, n, (m - 1) as nat);
    }
}

/// Where the first `n` rows do not all hold texts, neither do the first
/// `m`, for every larger `m`.
pub proof fn lemma_rows_texts_fail(rows: Seq<JsonTree>, n: nat, m: nat)
    requires
        n <= m,
        rows_texts(rows, n) is Err,
    ensures
        rows_texts(rows, m) == rows_texts(rows, n),
    decreases m,
{
    if n < m {
        lemma_rows_texts_fail(rows, n, (m - 1) as nat);
    }
}

/// The table of texts that `value` holds as an array of arrays of strings.
fn json_table(value: &JsonValue) -> (r: Result<Vec<Vec<String>>, String>)
    ensures
        match r {
            Ok(table) => table_of(json_tree(*value)) == Ok::<Seq<Seq<Seq<char>>>, Seq<char>>(
                text_table(table@),
            ),
            Err(message) => table_of(json_tree(*value)) == Err::<Seq<Seq<Seq<char>>>, Seq<char>>(
                message@,
            ),
        },
{
    let mut table: Vec<Vec<String>> = Vec::new();
    let rows = json_members(value);
    let ghost items = json_tree(*value).items();
    let mut r: usize = 0;
    assert(text_table(table@) =~= Seq::<Seq<Seq<char>>>::empty());
    while r < rows.len()
        invariant
            r <= rows@.len(),
            items == json_tree(*value).items(),
            rows@.len() == items.len(),
            forall|i: int| 0 <= i < rows@.len() ==> json_tree(*#[trigger] rows@[i]) == items[i],
            rows_texts(items, r as nat) == Ok::<Seq<Seq<Seq<char>>>, Seq<char>>(
                text_table(table@),
            ),
        decreases rows@.len() - r,
    {
        let mut row: Vec<String> = Vec::new();
        let cols = json_members(rows[r]);
        let ghost cells = items[r as int].items();
        let mut c: usize = 0;
        assert(row@.map_values(|cell: String| cell@) =~= Seq::<Seq<char>>::empty());
        while c < cols.len()
            invariant
                c <= cols@.len(),
                r < rows@.len(),
                items == json_tree(*value).items(),
                rows@.len() == items.len(),
                cells == items[r as int].items(),
                cols@.len() == cells.len(),
                forall|i: int| 0 <= i < cols@.len() ==> json_tree(*#[trigger] cols@[i]) == cells[i],
                row_texts(cells, c as nat) == Ok::<Seq<Seq<char>>, Seq<char>>(
                    row@.map_values(|cell: String| cell@),
                ),
                rows_texts(items, r as nat) is Ok,
            decreases cols@.len() - c,
        {
            assert(json_tree(*cols@[c as int]) == cells[c as int]);
            match json_text(cols[c]) {
                Some(cell) => {
                    let text = String::from_str(cell);
                    assert(row@.push(text).map_values(|cell: String| cell@) =~= row@.map_values(
                        |cell: String| cell@,
                    ).push(text@));
                    row.push(text);
                },
                None => {
                    let message = String::from_str("A key of the document is not a text.");
                    proof {
                        assert(row_texts(cells, (c + 1) as nat) == Err::<
                            Seq<Seq<char>>,
                            Seq<char>,
                        >(message@));
                        lemma_row_texts_fail(cells, (c + 1) as nat, cells.len());
                        assert(rows_texts(items, (r + 1) as nat) == Err::<
                            Seq<Seq<Seq<char>>>,
                            Seq<char>,
                        >(message@));
                        lemma_rows_texts_fail(items, (r + 1) as nat, items.len());
                    }
                    return Err(message);
                },
            }
            c += 1;
        }
        proof {
            assert(text_table(table@.push(row)) =~= text_table(table@).push(
                row@.map_values(|cell: String| cell@),
            ));
        }
        table.push(row);
        r += 1;
    }
    Ok(table)
}

/// The cells of the matrix that a document holds: the table under
/// `matrix`. Nothing where the text spells no document.
pub open spec fn matrix_table(document: Seq<char>) -> Option<
    Result<Seq<Seq<Seq<char>>>, Seq<char>>,
> {
    if !readable(document) {
        Some(Err(long_fraction_message()))
    } else {
        match json_parsed(document) {
            Some(tree) => Some(table_of(tree.field("matrix"@))),
            None => None,
        }
    }
}

/// The cells of the matrix in a matrix document: what stands under
/// `matrix`, row by row. A text that spells no document is refused, and
/// so is a document with a cell that is no text.
pub fn matrix_cells(document: &str) -> (r: Result<Vec<Vec<String>>, String>)
    ensures
        match matrix_table(document@) {
            None => r is Err,
            Some(Ok(cells)) => r matches Ok(table) && text_table(table@) == cells,
            Some(Err(fault)) => r matches Err(message) && message@ == fault,
        },
{
    let data = match read_document(document) {
        Ok(data) => data,
        Err(e) => {
            return Err(e);
        },
    };
    json_table(json_field(&data, "matrix"))
}

/// A layer as a document describes it, as a mathematical value.
pub struct LayerText {
    /// The name of the layer.
    pub name: Seq<char>,
    /// Whether the layer is enabled at first.
    pub enabled: bool,
    /// The text of each of its keys.
    pub keys: Seq<Seq<Seq<char>>>,
}

/// The layers as mathematical values.
pub open spec fn description_views(layers: Seq<LayerDescription>) -> Seq<LayerText> {
    layers.map_values(
        |l: LayerDescription| LayerText { name: l.name@, enabled: l.enabled, keys: text_table(l.keys@) },
    )
}

/// The layer that the entry `entry` of the order of layers stands for in
/// `document`, or why it stands for none: the entry is the name of the
/// layer; under that name the document holds a truth value under `enabled`
/// and a table of texts under `keys`.
pub open spec fn layer_of(document: JsonTree, entry: JsonTree) -> Result<LayerText, Seq<char>> {
    match entry.text() {
        None => Err("The name of a layer is not a text."@),
        Some(name) => {
            let layer = document.field(name);
            match layer.field("enabled"@).flag() {
                None => Err("A layer does not say whether it is enabled."@),
                Some(enabled) => match table_of(layer.field("keys"@)) {
                    Err(fault) => Err(fault),
                    Ok(keys) => Ok(LayerText { name, enabled, keys }),
                },
            }
        },
    }
}

/// The layers that the first `n` entries under `layer_order` stand for,
/// or the fault of the first entry that stands for none.
pub open spec fn layers_of(document: JsonTree, n: nat) -> Result<Seq<LayerText>, Seq<char>>
    decreases n,
{
    if n == 0 {
        Ok(Seq::empty())
    } else {
        match layers_of(document, (n - 1) as nat) {
            Err(fault) => Err(fault),
            Ok(layers) => match layer_of(document, document.field("layer_order"@).items()[n - 1]) {
                Err(fault) => Err(fault),
                Ok(layer) => Ok(layers.push(layer)),
            },
        }
    }
}

/// Where the first `n` entries do not all stand for layers, neither do
/// the first `m`, for every larger `m`.
pub proof fn lemma_layers_of_fail(document: JsonTree, n: nat, m: nat)
    requires
        n <= m,
        layers_of(document, n) is Err,
    ensures
        layers_of(document, m) == layers_of(document, n),
    decreases m,
{
    if n < m {
        lemma_layers_of_fail(document, n, (m - 1) as nat);
    }
}

/// The layers that a document holds, in the order that `layer_order`
/// gives. Nothing where the text spells no document.
pub open spec fn layer_texts(document: Seq<char>) -> Option<Result<Seq<LayerText>, Seq<char>>> {
    if !readable(document) {
        Some(Err(long_fraction_message()))
    } else {
        match json_parsed(document) {
            Some(tree) => Some(layers_of(tree, tree.field("layer_order"@).items().len())),
            None => None,
        }
    }
}

/// The layers of a layer document, in the order that `layer_order`
/// gives: each with its name, with what stands under `enabled`, and with
/// the cells under `keys`. A text that spells no document is refused, and
/// so is a document with a layer that has a fault.
pub fn layer_descriptions(document: &str) -> (r: Result<Vec<LayerDescription>, String>)
    ensures
        match layer_texts(document@) {
            None => r is Err,
            Some(Ok(layers)) => r matches Ok(found) && description_views(found@) == layers,
            Some(Err(fault)) => r matches Err(message) && message@ == fault,
        },
{
    let data = match read_document(document) {
        Ok(data) => data,
        Err(e) => {
            return Err(e);
        },
    };
    let ghost tree = json_tree(data);
    let mut layers: Vec<LayerDescription> = Vec::new();
    let order = json_members(json_field(&data, "layer_order"));
    let ghost entries = tree.field("layer_order"@).items();
    let mut i: usize = 0;
    assert(description_views(layers@) =~= Seq::<LayerText>::empty());
    while i < order.len()
        invariant
            i <= order@.len(),
            tree == json_tree(data),
            readable(document@),
            json_parsed(document@) == Some(tree),
            entries == tree.field("layer_order"@).items(),
            order@.len() == entries.len(),
            forall|k: int| 0 <= k < order@.len() ==> json_tree(*#[trigger] order@[k]) == entries[k],
            layers_of(tree, i as nat) == Ok::<Seq<LayerText>, Seq<char>>(
                description_views(layers@),
            ),
        decreases order@.len() - i,
    {
        assert(json_tree(*order@[i as int]) == entries[i as int]);
        // Load the layer attributes.
        let name = match json_text(order[i]) {
            Some(name) => name,
            None => {
                let message = String::from_str("The name of a layer is not a text.");
                proof {
                    assert(layers_of(tree, (i + 1) as nat) == Err::<Seq<LayerText>, Seq<char>>(
                        message@,
                    ));
                    lemma_layers_of_fail(tree, (i + 1) as nat, entries.len());
                }
                return Err(message);
            },
        };
        let layer = json_field(&data, name);
        let enabled = match json_flag(json_field(layer, "enabled")) {
            Some(enabled) => enabled,
            None => {
                let message = String::from_str("A layer does not say whether it is enabled.");
                proof {
                    assert(layers_of(tree, (i + 1) as nat) == Err::<Seq<LayerText>, Seq<char>>(
                        message@,
                    ));
                    lemma_layers_of_fail(tree, (i + 1) as nat, entries.len());
                }
                return Err(message);
            },
        };

        // Load the key matrix for the layer.
        let keys = match json_table(json_field(layer, "keys")) {
            Ok(keys) => keys,
            Err(e) => {
                proof {
                    assert(layers_of(tree, (i + 1) as nat) == Err::<Seq<LayerText>, Seq<char>>(e@));
                    lemma_layers_of_fail(tree, (i + 1) as nat, entries.len());
                }
                return Err(e);
            },
        };
        let description = LayerDescription { name: String::from_str(name), enabled, keys };
        proof {
            assert(description_views(layers@.push(description)) =~= description_views(
                layers@,
            ).push(
                LayerText {
                    name: description.name@,
                    enabled: description.enabled,
                    keys: text_table(description.keys@),
                },
            ));
        }
        layers.push(description);
        i += 1;
    }
    Ok(layers)
}

/// The names of hardware keys that the first `n` of `layers` ask for,
/// layer by layer.
pub open spec fn layers_names(layers: Seq<LayerText>, n: nat) -> Seq<Seq<char>>
    decreases n,
{
    if n == 0 {
        Seq::empty()
    } else {
        layers_names(layers, (n - 1) as nat) + table_names(
            layers[n - 1].keys,
            layers[n - 1].keys.len(),
        )
    }
}

/// The names of hardware keys that a matrix document and a layer document
/// ask for: those of the cells of the matrix, and then those of the keys
/// of each layer; none for a document that cannot be read.
pub open spec fn document_names(matrix_document: Seq<char>, layer_document: Seq<char>) -> Seq<
    Seq<char>,
> {
    let first = match matrix_table(matrix_document) {
        Some(Ok(cells)) => table_names(cells, cells.len()),
        _ => Seq::empty(),
    };
    let rest = match layer_texts(layer_document) {
        Some(Ok(layers)) => layers_names(layers, layers.len()),
        _ => Seq::empty(),
    };
    first + rest
}

/// The names of hardware keys that a matrix document and a layer document
/// ask for; none for a document that cannot be read.
pub fn document_symbols(matrix_document: &str, layer_document: &str) -> (names: Vec<String>)
    ensures
        text_views(names@) == document_names(matrix_document@, layer_document@),
{
    let mut names: Vec<String> = match matrix_cells(matrix_document) {
        Ok(cells) => wanted_symbols(&cells),
        Err(_) => Vec::new(),
    };
    let ghost first = text_views(names@);
    proof {
        match matrix_table(matrix_document@) {
            Some(Ok(cells)) => {},
            _ => {
                assert(first =~= Seq::<Seq<char>>::empty());
            },
        }
    }
    match layer_descriptions(layer_document) {
        Ok(layers) => {
            let ghost views = description_views(layers@);
            let mut i: usize = 0;
            assert(first + layers_names(views, 0) =~= first);
            while i < layers.len()
                invariant
                    i <= layers@.len(),
                    views == description_views(layers@),
                    text_views(names@) == first + layers_names(views, i as nat),
                decreases layers@.len() - i,
            {
                let mut more = wanted_symbols(&layers[i].keys);
                let ghost before = names@;
                let ghost added = more@;
                names.append(&mut more);
                proof {
                    assert(views[i as int].keys == text_table(layers@[i as int].keys@));
                    assert(text_views(before + added) =~= text_views(before) + text_views(added));
                    assert(text_views(names@) =~= first + layers_names(views, (i + 1) as nat));
                }
                i += 1;
            }
        },
        Err(_) => {
            assert(first + Seq::<Seq<char>>::empty() =~= first);
        },
    }
    names
}

/// The matrix that a matrix document describes for the given symbols, or
/// why it describes none. Nothing where the text spells no document.
pub open spec fn document_matrix(document: Seq<char>, symbols: Map<Seq<char>, u16>) -> Option<
    Result<MatrixState, Seq<char>>,
> {
    match matrix_table(document) {
        None => None,
        Some(Err(fault)) => Some(Err(fault)),
        Some(Ok(cells)) => match key_matrix_of(cells, symbols) {
            Err(fault) => Some(Err(fault)),
            Ok(keys) => Some(Ok(MatrixState::initial(keys, None))),
        },
    }
}

impl VirtualKeyboardMatrix {
    /// Load a keyboard matrix from the text of a matrix document: the
    /// matrix of the cells under `matrix`, with the default threshold for
    /// holds. A text that spells no document is refused, and so is a
    /// document whose cells have a fault.
    pub fn load(document: &str, symbols: &KeySymbols) -> (r: Result<VirtualKeyboardMatrix, String>)
        ensures
            match document_matrix(document@, symbols@) {
                None => r is Err,
                Some(Ok(state)) => r matches Ok(matrix) && matrix.wf() && matrix@ == state,
                Some(Err(fault)) => r matches Err(message) && message@ == fault,
            },
    {
        let cells = match matrix_cells(document) {
            Ok(cells) => cells,
            Err(e) => {
                return Err(e);
            },
        };
        VirtualKeyboardMatrix::from_cells(&cells, symbols)
    }
}

/// What is wrong with the keys of the first `n` of `layers`: the fault
/// of the first layer whose keys have one.
pub open spec fn texts_fault(layers: Seq<LayerText>, n: nat, symbols: Map<Seq<char>, u16>) -> Option<
    Seq<char>,
>
    decreases n,
{
    if n == 0 {
        None
    } else {
        match texts_fault(layers, (n - 1) as nat, symbols) {
            Some(fault) => Some(fault),
            None => match layer_keys_of(layers[n - 1].keys, symbols) {
                Err(fault) => Some(fault),
                Ok(_) => None,
            },
        }
    }
}

/// The places of layer names after the first `n` of `layers` were added
/// behind `base` layers: each name leads to the place of its layer, a
/// later layer of a name taking the name.
pub open spec fn names_added(
    index: Map<Seq<char>, usize>,
    base: nat,
    layers: Seq<LayerText>,
    n: nat,
) -> Map<Seq<char>, usize>
    decreases n,
{
    if n == 0 {
        index
    } else {
        names_added(index, base, layers, (n - 1) as nat).insert(
            layers[n - 1].name,
            (base + n - 1) as usize,
        )
    }
}

/// True when `after` is `before` with the first `n` of `layers` added
/// behind its layers, in their order: each with its name and enabled as
/// it says, the names leading to them, and the scheduled events untouched.
pub open spec fn layers_added(
    before: LayersState,
    after: LayersState,
    layers: Seq<LayerText>,
    n: nat,
) -> bool {
    &&& after.callbacks == before.callbacks
    &&& after.attributes.len() == before.attributes.len() + n
    &&& forall|i: int|
        0 <= i < before.attributes.len() ==> #[trigger] after.attributes[i] == before.attributes[i]
    &&& forall|i: int|
        0 <= i < n ==> (#[trigger] after.attributes[before.attributes.len() + i]).name@
            == layers[i].name && after.attributes[before.attributes.len() + i].enabled
            == layers[i].enabled
    &&& after.name_to_idx == names_added(before.name_to_idx, before.attributes.len(), layers, n)
}

/// The fault of the keys of layers is the fault of their texts.
pub proof fn lemma_layers_fault_of_views(
    layers: Seq<LayerDescription>,
    n: nat,
    symbols: Map<Seq<char>, u16>,
)
    requires
        n <= layers.len(),
    ensures
        layers_fault(layers, n, symbols) == texts_fault(description_views(layers), n, symbols),
    decreases n,
{
    if n > 0 {
        lemma_layers_fault_of_views(layers, (n - 1) as nat, symbols);
        assert(description_views(layers)[n - 1].keys == text_table(layers[n - 1].keys@));
    }
}

/// A collection with layers added one by one is the collection with
/// these layers added.
pub proof fn lemma_with_layers(state: LayersState, layers: Seq<LayerDescription>, n: nat)
    requires
        n <= layers.len(),
    ensures
        layers_added(state, with_layers(state, layers, n), description_views(layers), n),
    decreases n,
{
    if n > 0 {
        lemma_with_layers(state, layers, (n - 1) as nat);
        let views = description_views(layers);
        let before = with_layers(state, layers, (n - 1) as nat);
        let after = with_layers(state, layers, n);
        assert(views[n - 1].name == layers[n - 1].name@);
        assert(views[n - 1].enabled == layers[n - 1].enabled);
        assert forall|i: int| 0 <= i < n implies (#[trigger] after.attributes[state.attributes.len()
            + i]).name@ == views[i].name && after.attributes[state.attributes.len() + i].enabled
            == views[i].enabled by {
            if i < n - 1 {
                assert(after.attributes[state.attributes.len() + i]
                    == before.attributes[state.attributes.len() + i]);
            }
        }
        assert forall|i: int| 0 <= i < state.attributes.len() implies #[trigger] after.attributes[i]
            == state.attributes[i] by {
            assert(after.attributes[i] == before.attributes[i]);
        }
    }
}

impl<I, O> KeyboardDriver<I, O> where I: InputKeyboard, O: OutputKeyboard {
    /// Adds the layers of a layer document, in the order that
    /// `layer_order` gives: each layer with its name and enabled as the
    /// document says, and with the keys that its cells describe. A text that
    /// spells no document is refused, and so is a document with a fault in
    /// a layer or in a key; the driver then stays as it is.
    pub fn load_layers(&mut self, document: &str, symbols: &KeySymbols) -> (r: Result<(), String>)
        ensures
            final(self).input == old(self).input,
            final(self).output == old(self).output,
            final(self).matrix == old(self).matrix,
            r is Err ==> final(self).layer_attributes == old(self).layer_attributes && final(self).layered_codes == old(self).layered_codes,
            match layer_texts(document@) {
                None => r is Err,
                Some(Err(fault)) => r matches Err(message) && message@ == fault,
                Some(Ok(layers)) => match texts_fault(layers, layers.len(), symbols@) {
                    Some(fault) => r matches Err(message) && message@ == fault,
                    None => {
                        &&& r is Ok
                        &&& layers_added(
                            old(self).layer_attributes@,
                            final(self).layer_attributes@,
                            layers,
                            layers.len(),
                        )
                        &&& final(self).layered_codes@.len() == old(self).layered_codes@.len()
                            + layers.len()
                        &&& forall|i: int|
                            0 <= i < old(self).layered_codes@.len() ==> #[trigger] final(self).layered_codes@[i]
                                == old(self).layered_codes@[i]
                        &&& forall|i: int|
                            0 <= i < layers.len() ==> layer_keys_of(layers[i].keys, symbols@) == Ok::<
                                Seq<Seq<KeyShape>>,
                                Seq<char>,
                            >(
                                shape_table(
                                    (#[trigger] final(self).layered_codes@[old(self).layered_codes@.len()
                                        + i]).codes@,
                                ),
                            )
                    },
                },
            },
    {
        let layers = match layer_descriptions(document) {
            Ok(layers) => layers,
            Err(e) => {
                return Err(e);
            },
        };
        let ghost views = description_views(layers@);
        proof {
            lemma_layers_fault_of_views(layers@, layers@.len(), symbols@);
        }
        let r = self.add_layers(&layers, symbols);
        proof {
            if r is Ok {
                lemma_with_layers(old(self).layer_attributes@, layers@, layers@.len());
                assert forall|i: int| 0 <= i < views.len() implies layer_keys_of(
                    views[i].keys,
                    symbols@,
                ) == Ok::<Seq<Seq<KeyShape>>, Seq<char>>(
                    shape_table(
                        (#[trigger] self.layered_codes@[old(self).layered_codes@.len() + i]).codes@,
                    ),
                ) by {
                    assert(views[i].keys == text_table(layers@[i].keys@));
                }
            }
        }
        r
    }
}

} // verus!
