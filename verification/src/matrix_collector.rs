use crate::input_event::{InputEvent, SimpleKey};
use vstd::prelude::*;
use vstd::string::*;

verus! {

/// What a collector has made of an event.
#[derive(Clone, Copy, PartialEq, Eq, Structural, Debug)]
pub enum CollectorStep {
    /// The event is no press of a key and was passed over.
    Ignored,
    /// The key was taken into the current row.
    Collected(SimpleKey),
    /// A new row was begun.
    NextRow,
    /// The matrix is complete.
    Finished,
}

/// A collector as a mathematical value.
#[verifier::ext_equal]
pub struct CollectorState {
    /// The rows so far; the last one is the row that keys are taken into.
    pub rows: Seq<Seq<SimpleKey>>,
    /// The key that was pressed last.
    pub last_key: Option<SimpleKey>,
    /// How often it was pressed in a row.
    pub count: nat,
}

impl CollectorState {
    /// The collector before the first event: one row, and no key in it.
    pub open spec fn initial() -> CollectorState {
        CollectorState { rows: seq![Seq::empty()], last_key: None, count: 0 }
    }

    /// There is a row to take keys into, and no key was pressed more
    /// than three times in a row.
    pub open spec fn wf(self) -> bool {
        self.rows.len() > 0 && self.count <= 3
    }

    /// True when a key has been pressed three times in a row.
    pub open spec fn finished(self) -> bool {
        self.count >= 3
    }

    /// The key that `e` presses, if it is the press of a key.
    pub open spec fn press_of(e: InputEvent) -> Option<SimpleKey> {
        if e.value == 1 {
            e.spec_key()
        } else {
            None
        }
    }

    /// The collector after the event `e`, and what it made of it. The
    /// first press of a key takes the key into the current row, the
    /// second in a row begins a new row, and the third completes the matrix.
    pub open spec fn feed(self, e: InputEvent) -> (CollectorState, CollectorStep) {
        match CollectorState::press_of(e) {
            None => (self, CollectorStep::Ignored),
            Some(key) => {
                let count = if self.last_key == Some(key) {
                    self.count + 1
                } else {
                    1
                };
                let counted = CollectorState { last_key: Some(key), count, ..self };
                if count == 1 {
                    (
                        CollectorState {
                            rows: self.rows.update(
                                self.rows.len() - 1,
                                self.rows.last().push(key),
                            ),
                            ..counted
                        },
                        CollectorStep::Collected(key),
                    )
                } else if count == 2 {
                    (
                        CollectorState { rows: self.rows.push(Seq::empty()), ..counted },
                        CollectorStep::NextRow,
                    )
                } else {
                    (counted, CollectorStep::Finished)
                }
            },
        }
    }

    /// The matrix that was collected: the rows but the last, which the
    /// second press of the last key began.
    pub open spec fn collected(self) -> Seq<Seq<SimpleKey>> {
        self.rows.drop_last()
    }
}

/// Organizes the keys that are pressed into a matrix: one tap collects a
/// key, two taps go to the next row, three taps finish.
pub struct MatrixCollector {
    matrix: Vec<Vec<SimpleKey>>,
    last_key: Option<SimpleKey>,
    last_key_press_count: u32,
}

impl View for MatrixCollector {
    type V = CollectorState;

    closed spec fn view(&self) -> CollectorState {
        CollectorState {
            rows: self.matrix@.map_values(|row: Vec<SimpleKey>| row@),
            last_key: self.last_key,
            count: self.last_key_press_count as nat,
        }
    }
}

impl MatrixCollector {
    /// The collector before the first event.
    pub fn new() -> (collector: MatrixCollector)
        ensures
            collector@ == CollectorState::initial(),
    {
        let mut matrix: Vec<Vec<SimpleKey>> = Vec::new();
        matrix.push(Vec::new());
        let collector = MatrixCollector { matrix, last_key: None, last_key_press_count: 0 };
        assert(collector@.rows =~= CollectorState::initial().rows);
        collector
    }

    /// Tells whether the matrix is complete.
    pub fn is_finished(&self) -> (done: bool)
        ensures
            done == self@.finished(),
    {
        self.last_key_press_count >= 3
    }

    /// Takes in the next event of the keyboard.
    pub fn feed(&mut self, e: InputEvent) -> (step: CollectorStep)
        requires
            old(self)@.wf(),
            !old(self)@.finished(),
        ensures
            final(self)@.wf(),
            (final(self)@, step) == old(self)@.feed(e),
    {
        // Ignore any events that aren't presses.
        if e.value != 1 {
            return CollectorStep::Ignored;
        }
        // Get the key event code; ignore all other event types.
        let event_code = match e.key() {
            Some(key) => key,
            None => {
                return CollectorStep::Ignored;
            },
        };

        // Different or same key as last time?
        let same = match self.last_key {
            Some(last) => last.code == event_code.code,
            None => false,
        };
        if same {
            self.last_key_press_count += 1;
        } else {
            self.last_key = Some(event_code);
            self.last_key_press_count = 1;
        }

        if self.last_key_press_count == 1 {
            let last = self.matrix.len() - 1;
            self.matrix[last].push(event_code);
            assert(self@.rows =~= old(self)@.feed(e).0.rows);
            CollectorStep::Collected(event_code)
        } else if self.last_key_press_count == 2 {
            self.matrix.push(Vec::new());
            assert(self@.rows =~= old(self)@.feed(e).0.rows);
            CollectorStep::NextRow
        } else {
            CollectorStep::Finished
        }
    }

    /// The matrix that was collected.
    pub fn finish(self) -> (matrix: Vec<Vec<SimpleKey>>)
        requires
            self@.wf(),
        ensures
            matrix@.map_values(|row: Vec<SimpleKey>| row@) == self@.collected(),
    {
        let mut matrix = self.matrix;
        // Trim off the last empty row.
        matrix.remove(matrix.len() - 1);
        assert(matrix@.map_values(|row: Vec<SimpleKey>| row@) =~= self@.collected());
        matrix
    }
}

/// The text of `n` times the character `c`.
pub open spec fn repeated(c: char, n: nat) -> Seq<char> {
    Seq::new(n, |i: int| c)
}

/// True when `s` reads `KEY` from `i` on.
pub open spec fn key_at(s: Seq<char>, i: int) -> bool {
    0 <= i && i + 3 <= s.len() && s[i] == 'K' && s[i + 1] == 'E' && s[i + 2] == 'Y'
}

/// Where `s` reads `KEY` first, as far as its first `n` places go.
pub open spec fn first_key(s: Seq<char>, n: nat) -> Option<int>
    decreases n,
{
    if n == 0 {
        None
    } else {
        match first_key(s, (n - 1) as nat) {
            Some(i) => Some(i),
            None => if key_at(s, n - 1) {
                Some(n - 1)
            } else {
                None
            },
        }
    }
}

/// The label of the key called `name` in a document: the name in quotes,
/// with `KC` for the first `KEY` in it.
pub open spec fn label_of(name: Seq<char>) -> Seq<char> {
    let renamed = match first_key(name, name.len()) {
        Some(i) => name.take(i) + "KC"@ + name.skip(i + 3),
        None => name,
    };
    "\""@ + renamed + "\""@
}

/// The width of the column `c`, as far as the first `n` rows tell: the
/// length of the longest label in it.
pub open spec fn column_width(labels: Seq<Seq<Seq<char>>>, c: int, n: nat) -> nat
    decreases n,
{
    if n == 0 {
        0
    } else {
        let before = column_width(labels, c, (n - 1) as nat);
        if c < labels[n - 1].len() && labels[n - 1][c].len() > before {
            labels[n - 1][c].len()
        } else {
            before
        }
    }
}

/// The length of the longest among the first `n` rows.
pub open spec fn longest_row<T>(rows: Seq<Seq<T>>, n: nat) -> nat
    decreases n,
{
    if n == 0 {
        0
    } else {
        let before = longest_row(rows, (n - 1) as nat);
        if rows[n - 1].len() > before {
            rows[n - 1].len()
        } else {
            before
        }
    }
}

/// The text `s` with blanks before it, as many as it lacks to `width`.
pub open spec fn padded(s: Seq<char>, width: nat) -> Seq<char> {
    if s.len() < width {
        repeated(' ', (width - s.len()) as nat) + s
    } else {
        s
    }
}

/// The label of a place without a key in a column of the given width:
/// underscores in quotes, as wide as the column where that is two at least.
pub open spec fn filler(width: nat) -> Seq<char> {
    let fill = if width >= 2 {
        (width - 2) as nat
    } else {
        0
    };
    "\""@ + repeated('_', fill) + "\""@
}

/// The cell in column `c` of a row: its label with blanks before it, or
/// underscores where the row has no key there.
pub open spec fn cell_text(labels: Seq<Seq<Seq<char>>>, row: Seq<Seq<char>>, c: int) -> Seq<char> {
    let width = column_width(labels, c, labels.len());
    if c < row.len() {
        padded(row[c], width)
    } else {
        filler(width)
    }
}

/// The first `n` cells of a row, with a comma and a blank between them.
pub open spec fn cells_text(labels: Seq<Seq<Seq<char>>>, row: Seq<Seq<char>>, n: nat) -> Seq<char>
    decreases n,
{
    if n == 0 {
        Seq::empty()
    } else if n == 1 {
        cell_text(labels, row, 0)
    } else {
        cells_text(labels, row, (n - 1) as nat) + ", "@ + cell_text(labels, row, n - 1)
    }
}

/// A row as a line of a document: indented, and in square brackets.
pub open spec fn row_text(labels: Seq<Seq<Seq<char>>>, row: Seq<Seq<char>>) -> Seq<char> {
    "    [ "@ + cells_text(labels, row, longest_row(labels, labels.len())) + " ]"@
}

/// The first `n` rows as lines of a document, with a comma between them.
pub open spec fn rows_text(labels: Seq<Seq<Seq<char>>>, n: nat) -> Seq<char>
    decreases n,
{
    if n == 0 {
        Seq::empty()
    } else if n == 1 {
        row_text(labels, labels[0])
    } else {
        rows_text(labels, (n - 1) as nat) + ",\n"@ + row_text(labels, labels[n - 1])
    }
}

/// The labels of the keys with the given names.
pub open spec fn labels_of(names: Seq<Seq<Seq<char>>>) -> Seq<Seq<Seq<char>>> {
    names.map_values(|row: Seq<Seq<char>>| row.map_values(|name: Seq<char>| label_of(name)))
}

/// The matrix document for the keyboard at `device` whose keys have the
/// given names.
pub open spec fn matrix_document(device: Seq<char>, names: Seq<Seq<Seq<char>>>) -> Seq<char> {
    "{\n  \"device\": \""@ + device + "\",\n  \"matrix\": [\n"@ + rows_text(
        labels_of(names),
        names.len(),
    ) + "\n  ]\n}"@
}

/// The layer document with the one layer `base`, whose keys are the
/// keys of the keyboard themselves.
pub open spec fn layer_document(names: Seq<Seq<Seq<char>>>) -> Seq<char> {
    "{\n  \"layer_order\": [ \"base\" ],\n  \"base\": {\n    \"enabled\": true,\n    \"keys\" : [\n"@
        + rows_text(labels_of(names), names.len()) + "\n    ]\n  }\n}"@
}

/// The names as mathematical values.
pub open spec fn name_table(names: Seq<Vec<String>>) -> Seq<Seq<Seq<char>>> {
    names.map_values(|row: Vec<String>| row@.map_values(|name: String| name@))
}

/// The text of `n` times the character that `unit` holds.
fn repeat(unit: &str, c: char, n: usize) -> (t: String)
    requires
        unit@ == seq![c],
    ensures
        t@ == repeated(c, n as nat),
{
    let mut t = String::from_str("");
    proof {
        reveal_strlit("");
    }
    let mut i: usize = 0;
    assert(t@ =~= repeated(c, 0));
    while i < n
        invariant
            i <= n,
            unit@ == seq![c],
            t@ == repeated(c, i as nat),
        decreases n - i,
    {
        t.append(unit);
        assert(t@ =~= repeated(c, (i + 1) as nat));
        i += 1;
    }
    t
}

/// The first place among the first `n` where `KEY` is read is the first
/// among the first `m`, for every larger `m`.
pub proof fn lemma_first_key_found(s: Seq<char>, n: nat, m: nat)
    requires
        n <= m,
        first_key(s, n) is Some,
    ensures
        first_key(s, m) == first_key(s, n),
    decreases m,
{
    if n < m {
        lemma_first_key_found(s, n, (m - 1) as nat);
    }
}

/// The label of the key called `name` in a document.
pub fn key_label(name: &str) -> (label: String)
    ensures
        label@ == label_of(name@),
{
    let len = name.unicode_len();
    let mut label = String::from_str("\"");
    let mut i: usize = 0;
    let mut found = false;
    while i < len && !found
        invariant
            i <= len,
            len == name@.len(),
            label@ == "\""@,
            !found ==> first_key(name@, i as nat) is None,
            found ==> first_key(name@, (i + 1) as nat) == Some(i as int) && i + 3 <= len,
        decreases len - i + if found {
            0int
        } else {
            1int
        },
    {
        if len - i >= 3 && name.get_char(i) == 'K' && name.get_char(i + 1) == 'E' && name.get_char(
            i + 2,
        ) == 'Y' {
            found = true;
        } else {
            i += 1;
        }
    }
    if found {
        proof {
            lemma_first_key_found(name@, (i + 1) as nat, len as nat);
        }
        label.append(name.substring_char(0, i));
        label.append("KC");
        label.append(name.substring_char(i + 3, len));
    } else {
        label.append(name);
    }
    label.append("\"");
    label
}

/// The text `s` with blanks before it, as many as it lacks to `width`.
fn pad(s: &str, width: usize) -> (t: String)
    ensures
        t@ == padded(s@, width as nat),
{
    let len = s.unicode_len();
    if len < width {
        proof {
            reveal_strlit(" ");
            assert(" "@ =~= seq![' ']);
        }
        let mut t = repeat(" ", ' ', width - len);
        t.append(s);
        t
    } else {
        String::from_str(s)
    }
}

/// The labels of the keys with the given names.
fn labels(names: &Vec<Vec<String>>) -> (out: Vec<Vec<String>>)
    ensures
        name_table(out@) == labels_of(name_table(names@)),
{
    let ghost table = name_table(names@);
    let mut out: Vec<Vec<String>> = Vec::new();
    let mut r: usize = 0;
    while r < names.len()
        invariant
            r <= names@.len(),
            table == name_table(names@),
            out@.len() == r,
            forall|k: int|
                0 <= k < r ==> (#[trigger] out@[k])@.map_values(|name: String| name@)
                    == table[k].map_values(|name: Seq<char>| label_of(name)),
        decreases names@.len() - r,
    {
        let mut row: Vec<String> = Vec::new();
        let mut c: usize = 0;
        while c < names[r as usize].len()
            invariant
                r < names@.len(),
                c <= names@[r as int]@.len(),
                row@.len() == c,
                forall|k: int| 0 <= k < c ==> (#[trigger] row@[k])@ == label_of(names@[r as int]@[k]@),
            decreases names@[r as int]@.len() - c,
        {
            row.push(key_label(names[r][c].as_str()));
            c += 1;
        }
        assert(row@.map_values(|name: String| name@) =~= table[r as int].map_values(
            |name: Seq<char>| label_of(name),
        ));
        out.push(row);
        r += 1;
    }
    assert(name_table(out@) =~= labels_of(table));
    out
}

/// The length of the longest row.
fn widest<T>(rows: &Vec<Vec<T>>) -> (n: usize)
    ensures
        n == longest_row(rows@.map_values(|row: Vec<T>| row@), rows@.len()),
{
    let ghost table = rows@.map_values(|row: Vec<T>| row@);
    let mut n: usize = 0;
    let mut r: usize = 0;
    while r < rows.len()
        invariant
            r <= rows@.len(),
            table == rows@.map_values(|row: Vec<T>| row@),
            n == longest_row(table, r as nat),
        decreases rows@.len() - r,
    {
        if rows[r].len() > n {
            n = rows[r].len();
        }
        r += 1;
    }
    n
}

/// The width of the column `c`.
fn width_of(labels: &Vec<Vec<String>>, c: usize) -> (width: usize)
    ensures
        width == column_width(name_table(labels@), c as int, labels@.len()),
{
    let ghost table = name_table(labels@);
    let mut width: usize = 0;
    let mut r: usize = 0;
    while r < labels.len()
        invariant
            r <= labels@.len(),
            table == name_table(labels@),
            width == column_width(table, c as int, r as nat),
        decreases labels@.len() - r,
    {
        assert(table[r as int].len() == labels@[r as int]@.len());
        if c < labels[r].len() {
            assert(table[r as int][c as int] == labels@[r as int]@[c as int]@);
            let len = labels[r][c].as_str().unicode_len();
            if len > width {
                width = len;
            }
        }
        r += 1;
    }
    width
}

/// The rows of a document for the keys with the given labels.
fn rows(labels: &Vec<Vec<String>>) -> (t: String)
    ensures
        t@ == rows_text(name_table(labels@), labels@.len()),
{
    let ghost table = name_table(labels@);
    let cols = widest(labels);
    assert(labels@.map_values(|row: Vec<String>| row@).len() == table.len());
    proof {
        lemma_longest_row_same(
            labels@.map_values(|row: Vec<String>| row@),
            table,
            labels@.len(),
        );
    }
    // Find the maximum width for each column.
    let mut widths: Vec<usize> = Vec::new();
    let mut c: usize = 0;
    while c < cols
        invariant
            c <= cols,
            widths@.len() == c,
            table == name_table(labels@),
            forall|k: int|
                0 <= k < c ==> #[trigger] widths@[k] == column_width(table, k, table.len()),
        decreases cols - c,
    {
        widths.push(width_of(labels, c));
        c += 1;
    }
    proof {
        reveal_strlit("");
        reveal_strlit("_");
        assert("_"@ =~= seq!['_']);
    }
    let mut t = String::from_str("");
    let mut r: usize = 0;
    assert(t@ =~= rows_text(table, 0));
    while r < labels.len()
        invariant
            r <= labels@.len(),
            cols == longest_row(table, table.len()),
            widths@.len() == cols,
            table == name_table(labels@),
            "_"@ == seq!['_'],
            forall|k: int|
                0 <= k < cols ==> #[trigger] widths@[k] == column_width(table, k, table.len()),
            t@ == rows_text(table, r as nat),
        decreases labels@.len() - r,
    {
        let ghost done = t@;
        if r > 0 {
            t.append(",\n");
        }
        let ghost lead = t@;
        t.append("    [ ");
        let row = &labels[r];
        let ghost texts = table[r as int];
        assert(texts.len() == row@.len());
        // Left pad each value to the max width of the column, and fill in
        // the keys that a short row is missing.
        let mut k: usize = 0;
        assert(t@ =~= lead + "    [ "@ + cells_text(table, texts, 0));
        while k < cols
            invariant
                k <= cols,
                r < labels@.len(),
                widths@.len() == cols,
                table == name_table(labels@),
                texts == table[r as int],
                texts.len() == row@.len(),
                "_"@ == seq!['_'],
                forall|j: int| 0 <= j < row@.len() ==> texts[j] == (#[trigger] row@[j])@,
                forall|j: int|
                    0 <= j < cols ==> #[trigger] widths@[j] == column_width(table, j, table.len()),
                t@ == lead + "    [ "@ + cells_text(table, texts, k as nat),
            decreases cols - k,
        {
            let ghost so_far = t@;
            if k > 0 {
                t.append(", ");
            }
            let ghost spaced = t@;
            let width = widths[k];
            if k < row.len() {
                assert(texts[k as int] == row@[k as int]@);
                t.append(pad(row[k].as_str(), width).as_str());
            } else {
                t.append("\"");
                let fill = if width >= 2 {
                    width - 2
                } else {
                    0
                };
                t.append(repeat("_", '_', fill).as_str());
                t.append("\"");
                assert(t@ =~= spaced + filler(width as nat));
            }
            assert(t@ =~= lead + "    [ "@ + cells_text(table, texts, (k + 1) as nat));
            k += 1;
        }
        t.append(" ]");
        assert(t@ =~= lead + row_text(table, texts));
        assert(t@ =~= rows_text(table, (r + 1) as nat));
        r += 1;
    }
    t
}

/// Rows of the same lengths have the same longest length.
pub proof fn lemma_longest_row_same<A, B>(a: Seq<Seq<A>>, b: Seq<Seq<B>>, n: nat)
    requires
        n <= a.len(),
        a.len() == b.len(),
        forall|i: int| 0 <= i < a.len() ==> (#[trigger] a[i]).len() == b[i].len(),
    ensures
        longest_row(a, n) == longest_row(b, n),
    decreases n,
{
    if n > 0 {
        lemma_longest_row_same(a, b, (n - 1) as nat);
        assert(a[n - 1].len() == b[n - 1].len());
    }
}

/// Writes the matrix document and the layer document for the keyboard at
/// `device` whose keys have the given names, row by row.
pub fn write_documents(device: &str, names: &Vec<Vec<String>>) -> (documents: (String, String))
    ensures
        documents.0@ == matrix_document(device@, name_table(names@)),
        documents.1@ == layer_document(name_table(names@)),
{
    // Convert the every key code to a string.
    let labels = labels(names);
    assert(name_table(labels@).len() == labels@.len());
    assert(name_table(names@).len() == names@.len());
    // This is the literal JSON value that's written to the output JSON documents.
    let matrix = rows(&labels);

    let mut matrix_document = String::from_str("{\n  \"device\": \"");
    matrix_document.append(device);
    matrix_document.append("\",\n  \"matrix\": [\n");
    matrix_document.append(matrix.as_str());
    matrix_document.append("\n  ]\n}");

    let mut layer_document = String::from_str(
        "{\n  \"layer_order\": [ \"base\" ],\n  \"base\": {\n    \"enabled\": true,\n    \"keys\" : [\n",
    );
    layer_document.append(matrix.as_str());
    layer_document.append("\n    ]\n  }\n}");
    (matrix_document, layer_document)
}

} // verus!
