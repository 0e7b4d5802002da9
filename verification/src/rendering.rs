//! Laws of the output: what the text of a value, the JSON text of a result and the lines of a table
//! show.

use vstd::prelude::*;

use crate::executor::ResultModel;
use crate::format::{
    body_cells, column_width, formatted, named, padded, repeated, result_value, table_cells,
    table_line, table_rows, widths, OutputFormat,
};
use crate::headings::{lemma_join, listed};
use crate::json::{lemma_string_decodes, string_at};
use crate::lexer::number;
use crate::spelling::lemma_digits;
use crate::text::{digits, int_text, Text};
use crate::value::{
    display, display_entries, display_items, json, json_entries, json_items, json_text, ValueModel,
};

verus! {

// ---- Numbers ---------------------------------------------------------------------------

/// Whether a text is the decimal notation of an integer: digits, with a minus before them if it is
/// negative, and without needless zeros.
pub open spec fn notes(t: Text, i: int) -> bool {
    let body = if i < 0 {
        t.skip(1)
    } else {
        t
    };
    &&& i < 0 ==> t.len() > 0 && t[0] == '-'
    &&& body.len() > 0
    &&& forall|k: int| 0 <= k < body.len() ==> '0' <= #[trigger] body[k] && body[k] <= '9'
    &&& number(body) == (if i < 0 {
        -i
    } else {
        i
    })
    &&& body[0] == '0' ==> i == 0
}

proof fn lemma_notes(i: int)
    ensures
        notes(int_text(i), i),
{
    if i < 0 {
        lemma_digits((-i) as nat);
        assert(int_text(i).skip(1) =~= digits((-i) as nat));
    } else {
        lemma_digits(i as nat);
    }
}

// ---- Plain text ------------------------------------------------------------------------

/// The plain text of a value: nothing for null, the words `true` and `false`, the decimal notation
/// of a number, a text itself, and the name of a node.
pub proof fn lemma_plain_text(v: ValueModel)
    ensures
        match v {
            ValueModel::Null => display(v).len() == 0,
            ValueModel::Bool(b) => display(v) == if b {
                "true"@
            } else {
                "false"@
            },
            ValueModel::Int(i) => notes(display(v), i as int),
            ValueModel::Str(s) => display(v) == s,
            ValueModel::Node { name, .. } => display(v) == name,
            ValueModel::List(items) => display(v) == "["@ + listed(
                items.map_values(|x: ValueModel| display(x)),
                ", "@,
                0,
            ) + "]"@,
            ValueModel::Mapping(entries) => display(v) == "{"@ + listed(
                entries.map_values(|e: (Text, ValueModel)| e.0 + ": "@ + display(e.1)),
                ", "@,
                0,
            ) + "}"@,
        },
{
    match v {
        ValueModel::Int(i) => {
            lemma_notes(i as int);
        },
        ValueModel::List(items) => {
            assert(display_items(items) =~= items.map_values(|x: ValueModel| display(x)));
            lemma_join(display_items(items), ", "@);
        },
        ValueModel::Mapping(entries) => {
            assert(display_entries(entries) =~= entries.map_values(
                |e: (Text, ValueModel)| e.0 + ": "@ + display(e.1),
            ));
            lemma_join(display_entries(entries), ", "@);
        },
        _ => {},
    }
}

// ---- JSON ------------------------------------------------------------------------------

/// Whether a text is a JSON string that stands for a text.
pub open spec fn string_of(t: Text, s: Text) -> bool {
    string_at(t, 0) == Some((s, t.len()))
}

/// Whether a text is a JSON text that shows a value: null, the truth values and numbers as such,
/// texts as strings, lists as arrays and maps as objects with their entries in order, and a node as
/// an object of its label and its name.
pub open spec fn shows(t: Text, v: ValueModel) -> bool
    decreases v,
{
    match v {
        ValueModel::Null => t == "null"@,
        ValueModel::Bool(b) => t == if b {
            "true"@
        } else {
            "false"@
        },
        ValueModel::Int(i) => notes(t, i as int),
        ValueModel::Str(s) => string_of(t, s),
        ValueModel::Node { id, label, name } => exists|a: Text, b: Text|
            string_of(a, label) && string_of(b, name) && t == #[trigger] node_object(a, b),
        ValueModel::List(items) => exists|parts: Seq<Text>|
            parts.len() == items.len() && (forall|i: int|
                0 <= i < items.len() ==> shows(#[trigger] parts[i], items[i])) && t == "["@
                + #[trigger] listed(parts, ","@, 0) + "]"@,
        ValueModel::Mapping(entries) => exists|keys: Seq<Text>, values: Seq<Text>|
            keys.len() == entries.len() && values.len() == entries.len() && (forall|i: int|
                0 <= i < entries.len() ==> string_of(#[trigger] keys[i], entries[i].0)) && (forall|
                i: int,
            |
                0 <= i < entries.len() ==> shows(#[trigger] values[i], entries[i].1)) && t == "{"@
                + #[trigger] listed(members_of(keys, values), ","@, 0) + "}"@,
    }
}

/// The object of the label and the name of a node.
pub open spec fn node_object(label: Text, name: Text) -> Text {
    "{\"label\":"@ + label + ",\"name\":"@ + name + "}"@
}

/// The members of an object.
pub open spec fn members_of(keys: Seq<Text>, values: Seq<Text>) -> Seq<Text> {
    Seq::new(keys.len(), |i: int| keys[i] + ":"@ + values[i])
}

/// The JSON text of a value shows that value.
pub proof fn lemma_json_shows(v: ValueModel)
    ensures
        shows(json(v), v),
    decreases v,
{
    match v {
        ValueModel::Int(i) => {
            lemma_notes(i as int);
        },
        ValueModel::Str(s) => {
            lemma_string_decodes(s);
        },
        ValueModel::Node { id, label, name } => {
            lemma_string_decodes(label);
            lemma_string_decodes(name);
            assert(json(v) == node_object(json_text(label), json_text(name)));
        },
        ValueModel::List(items) => {
            let parts = json_items(items);
            assert forall|i: int| 0 <= i < items.len() implies shows(
                #[trigger] parts[i],
                items[i],
            ) by {
                lemma_json_shows(items[i]);
                assert(parts[i] == json(items[i]));
            }
            lemma_join(parts, ","@);
            assert(json(v) == "["@ + listed(parts, ","@, 0) + "]"@);
        },
        ValueModel::Mapping(entries) => {
            let keys = Seq::new(entries.len(), |i: int| json_text(entries[i].0));
            let values = Seq::new(entries.len(), |i: int| json(entries[i].1));
            assert forall|i: int| 0 <= i < entries.len() implies string_of(
                #[trigger] keys[i],
                entries[i].0,
            ) by {
                lemma_string_decodes(entries[i].0);
            }
            assert forall|i: int| 0 <= i < entries.len() implies shows(
                #[trigger] values[i],
                entries[i].1,
            ) by {
                lemma_json_shows(entries[i].1);
            }
            let parts = json_entries(entries);
            assert(parts =~= members_of(keys, values));
            lemma_join(parts, ","@);
            assert(json(v) == "{"@ + listed(members_of(keys, values), ","@, 0) + "}"@);
        },
        _ => {},
    }
}

/// A row of a result as a map: its values under the names of their columns, in the order of the
/// columns.
pub open spec fn row_map(columns: Seq<Text>, row: Seq<ValueModel>) -> ValueModel {
    ValueModel::Mapping(Seq::new(columns.len(), |i: int| (columns[i], row[i])))
}

/// The JSON text of a result shows a list with one map for each row, in the order of the rows.
pub proof fn lemma_json_output(r: ResultModel)
    requires
        forall|i: int| 0 <= i < r.rows.len() ==> (#[trigger] r.rows[i]).len() == r.columns.len(),
    ensures
        shows(
            formatted(r, OutputFormat::Json),
            ValueModel::List(
                r.rows.map_values(|row: Seq<ValueModel>| row_map(r.columns, row)),
            ),
        ),
{
    let rows = r.rows.map_values(|row: Seq<ValueModel>| row_map(r.columns, row));
    let shown = Seq::new(r.rows.len(), |i: int| ValueModel::Mapping(named(r.columns, r.rows[i])));
    assert forall|i: int| 0 <= i < rows.len() implies rows[i] == shown[i] by {
        assert(r.rows[i].len() == r.columns.len());
        assert(named(r.columns, r.rows[i]) =~= Seq::new(
            r.columns.len(),
            |k: int| (r.columns[k], r.rows[i][k]),
        ));
    }
    assert(rows =~= shown);
    lemma_json_shows(result_value(r));
}

// ---- Tables ----------------------------------------------------------------------------

proof fn lemma_column_width(lines: Seq<Seq<Text>>, c: int, n: nat)
    requires
        n <= lines.len(),
    ensures
        forall|k: int| 0 <= k < n ==> (#[trigger] lines[k])[c].len() <= column_width(lines, c, n),
        n > 0 ==> exists|k: int|
            0 <= k < n && (#[trigger] lines[k])[c].len() == column_width(lines, c, n),
        n == 0 ==> column_width(lines, c, n) == 0,
    decreases n,
{
    if n > 0 {
        lemma_column_width(lines, c, (n - 1) as nat);
        let before = column_width(lines, c, (n - 1) as nat);
        let here = lines[n - 1][c].len();
        if here > before {
            assert(lines[n - 1][c].len() == column_width(lines, c, n));
        } else if n > 1 {
            let k = choose|k: int|
                0 <= k < n - 1 && (#[trigger] lines[k])[c].len() == before;
            assert(lines[k][c].len() == column_width(lines, c, n));
        } else {
            assert(lines[n - 1][c].len() == column_width(lines, c, n));
        }
    }
}

/// The width of a column: that of the longest of its name and of the texts in it.
pub open spec fn is_width(r: ResultModel, c: int, w: nat) -> bool {
    &&& r.columns[c].len() <= w
    &&& forall|i: int| 0 <= i < r.rows.len() ==> shown_in(#[trigger] r.rows[i], c).len() <= w
    &&& r.columns[c].len() == w || exists|i: int|
        0 <= i < r.rows.len() && shown_in(#[trigger] r.rows[i], c).len() == w
}

/// The text in a column of a row; a missing value shows nothing.
pub open spec fn shown_in(row: Seq<ValueModel>, c: int) -> Text {
    if 0 <= c < row.len() {
        display(row[c])
    } else {
        Seq::empty()
    }
}

/// A text with blanks behind it up to a width.
pub open spec fn filled(t: Text, w: nat) -> Text {
    t + Seq::new((w - t.len()) as nat, |i: int| ' ')
}

/// A line of a table: its texts, filled up to the widths of their columns, with bars between them.
pub open spec fn line_of(texts: Seq<Text>, ws: Seq<nat>) -> Text {
    listed(Seq::new(ws.len(), |c: int| filled(texts[c], ws[c])), " | "@, 0)
}

/// The lines of the rows from position `i` on.
pub open spec fn lines_of(r: ResultModel, ws: Seq<nat>, i: int) -> Text
    decreases r.rows.len() - i,
{
    if i < 0 || i >= r.rows.len() {
        Seq::empty()
    } else {
        line_of(Seq::new(ws.len(), |c: int| shown_in(r.rows[i], c)), ws) + "\n"@ + lines_of(
            r,
            ws,
            i + 1,
        )
    }
}

proof fn lemma_line(texts: Seq<Text>, ws: Seq<nat>)
    requires
        texts.len() == ws.len(),
        forall|c: int| 0 <= c < ws.len() ==> (#[trigger] texts[c]).len() <= ws[c],
    ensures
        table_line(texts, ws) == line_of(texts, ws),
{
    let a = Seq::new(texts.len(), |i: int| padded(texts[i], ws[i]));
    let b = Seq::new(ws.len(), |c: int| filled(texts[c], ws[c]));
    assert forall|c: int| 0 <= c < ws.len() implies a[c] == b[c] by {
        assert(texts[c].len() <= ws[c]);
        assert(padded(texts[c], ws[c]) =~= filled(texts[c], ws[c]));
    }
    assert(a =~= b);
    lemma_join(a, " | "@);
}

proof fn lemma_lines_push(r: ResultModel, ws: Seq<nat>, i: int, n: nat)
    requires
        ws == widths(table_cells(r), r.columns.len()),
        0 <= i <= n < r.rows.len(),
    ensures
        lines_between(r, ws, i, n + 1) == lines_between(r, ws, i, n) + table_line(
            table_cells(r)[n as int + 1],
            ws,
        ) + "\n"@,
    decreases n - i,
{
    lemma_row_line(r, ws, n as int);
    let last = table_line(table_cells(r)[n as int + 1], ws);
    if i < n {
        lemma_lines_push(r, ws, i + 1, n);
        assert(lines_between(r, ws, i, n + 1) =~= lines_between(r, ws, i, n) + last + "\n"@);
    } else {
        assert(lines_between(r, ws, i + 1, n + 1) =~= Seq::empty());
        assert(lines_between(r, ws, i, n) =~= Seq::empty());
        assert(lines_between(r, ws, i, n + 1) =~= lines_between(r, ws, i, n) + last + "\n"@);
    }
}

/// The lines of the rows from position `i` up to and without position `n`.
spec fn lines_between(r: ResultModel, ws: Seq<nat>, i: int, n: nat) -> Text
    decreases n - i,
{
    if i < 0 || i >= n {
        Seq::empty()
    } else {
        line_of(Seq::new(ws.len(), |c: int| shown_in(r.rows[i], c)), ws) + "\n"@ + lines_between(
            r,
            ws,
            i + 1,
            n,
        )
    }
}

proof fn lemma_all_lines(r: ResultModel, ws: Seq<nat>, i: int)
    requires
        0 <= i <= r.rows.len(),
    ensures
        lines_between(r, ws, i, r.rows.len()) == lines_of(r, ws, i),
    decreases r.rows.len() - i,
{
    if i < r.rows.len() {
        lemma_all_lines(r, ws, i + 1);
    }
}

proof fn lemma_row_line(r: ResultModel, ws: Seq<nat>, n: int)
    requires
        ws == widths(table_cells(r), r.columns.len()),
        0 <= n < r.rows.len(),
    ensures
        table_line(table_cells(r)[n + 1], ws) == line_of(
            Seq::new(ws.len(), |c: int| shown_in(r.rows[n], c)),
            ws,
        ),
{
    let lines = table_cells(r);
    let texts = Seq::new(ws.len(), |c: int| shown_in(r.rows[n], c));
    assert(lines[n + 1] == body_cells(r)[n]);
    assert(lines[n + 1] =~= texts);
    assert forall|c: int| 0 <= c < ws.len() implies (#[trigger] texts[c]).len() <= ws[c] by {
        lemma_column_width(lines, c, lines.len());
        assert(lines[n + 1][c].len() <= ws[c]);
    }
    lemma_line(texts, ws);
}

proof fn lemma_table_rows(r: ResultModel, ws: Seq<nat>, n: nat)
    requires
        ws == widths(table_cells(r), r.columns.len()),
        n <= r.rows.len(),
    ensures
        table_rows(table_cells(r), ws, n) == lines_between(r, ws, 0, n),
    decreases n,
{
    if n > 0 {
        lemma_table_rows(r, ws, (n - 1) as nat);
        lemma_lines_push(r, ws, 0, (n - 1) as nat);
    }
}

/// A table shows the names of the columns, a rule, and a line for each row in order. Each column is
/// as wide as the longest of its texts; its texts are filled up with blanks, and bars stand between
/// the columns.
pub proof fn lemma_table(r: ResultModel) -> (ws: Seq<nat>)
    ensures
        ws.len() == r.columns.len(),
        forall|c: int| 0 <= c < ws.len() ==> is_width(r, c, #[trigger] ws[c]),
        formatted(r, OutputFormat::Table) == line_of(r.columns, ws) + "\n"@ + listed(
            Seq::new(ws.len(), |c: int| Seq::new(ws[c], |i: int| '-')),
            "-+-"@,
            0,
        ) + "\n"@ + lines_of(r, ws, 0),
{
    let lines = table_cells(r);
    let ws = widths(lines, r.columns.len());
    assert(lines[0] == r.columns);
    assert forall|c: int| 0 <= c < ws.len() implies is_width(r, c, #[trigger] ws[c]) by {
        lemma_column_width(lines, c, lines.len());
        assert(lines[0][c].len() <= ws[c]);
        assert forall|i: int| 0 <= i < r.rows.len() implies shown_in(#[trigger] r.rows[i], c).len()
            <= ws[c] by {
            assert(lines[i + 1] == body_cells(r)[i]);
            assert(lines[i + 1][c].len() <= ws[c]);
        }
        let k = choose|k: int| 0 <= k < lines.len() && (#[trigger] lines[k])[c].len() == ws[c];
        if k > 0 {
            assert(lines[k] == body_cells(r)[k - 1]);
            assert(shown_in(r.rows[k - 1], c).len() == ws[c]);
        }
    }
    assert forall|c: int| 0 <= c < ws.len() implies (#[trigger] r.columns[c]).len() <= ws[c] by {
        assert(is_width(r, c, ws[c]));
    }
    lemma_line(r.columns, ws);
    let a = Seq::new(ws.len(), |i: int| repeated('-', ws[i]));
    let b = Seq::new(ws.len(), |c: int| Seq::new(ws[c], |i: int| '-'));
    assert forall|c: int| 0 <= c < ws.len() implies a[c] == b[c] by {
        assert(a[c] =~= b[c]);
    }
    assert(a =~= b);
    lemma_join(a, "-+-"@);
    lemma_table_rows(r, ws, r.rows.len());
    lemma_all_lines(r, ws, 0);
    ws
}

} // verus!
