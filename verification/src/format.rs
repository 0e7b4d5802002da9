//! Rendering of results as a table or as JSON.

use vstd::prelude::*;

use crate::executor::{ResultModel, ResultSet};
use crate::text::{chars_of, join, lemma_join_push, lemma_texts_push, push_text, texts, Text};
use crate::value::{
    display, entries_without_ids, entry_models, items_without_ids, json, lemma_entry_models_push,
    lemma_rendering_ignores_ids, lemma_value_models_push, value_models, without_ids, CypherValue,
    ValueModel,
};

verus! {

/// How a result is rendered.
#[derive(Debug, Clone, Copy, PartialEq, Eq, Structural)]
pub enum OutputFormat {
    /// Aligned columns under their names.
    Table,
    /// An array with one object per row.
    Json,
}

// ---- JSON ------------------------------------------------------------------------

/// The values of a row under the names of their columns.
pub open spec fn named(columns: Seq<Text>, row: Seq<ValueModel>) -> Seq<(Text, ValueModel)> {
    Seq::new(
        if columns.len() <= row.len() {
            columns.len()
        } else {
            row.len()
        },
        |i: int| (columns[i], row[i]),
    )
}

/// A result as a value: a list with one map per row.
pub open spec fn result_value(r: ResultModel) -> ValueModel {
    ValueModel::List(
        Seq::new(r.rows.len(), |i: int| ValueModel::Mapping(named(r.columns, r.rows[i]))),
    )
}

// ---- The table -------------------------------------------------------------------

/// The text in a column of a row; a missing value is an empty text.
pub open spec fn cell_text(row: Seq<ValueModel>, column: int) -> Text {
    if 0 <= column < row.len() {
        display(row[column])
    } else {
        Seq::empty()
    }
}

/// The texts of a row, one for each of `n` columns.
pub open spec fn cell_texts(row: Seq<ValueModel>, n: nat) -> Seq<Text> {
    Seq::new(n, |i: int| cell_text(row, i))
}

/// The lines of the table without its rule: the names of the columns, and the rows.
pub open spec fn table_cells(r: ResultModel) -> Seq<Seq<Text>> {
    seq![r.columns] + body_cells(r)
}

/// The lines of the rows.
pub open spec fn body_cells(r: ResultModel) -> Seq<Seq<Text>> {
    Seq::new(r.rows.len(), |i: int| cell_texts(r.rows[i], r.columns.len()))
}

/// The width of a column: that of its longest text in the first `n` lines.
pub open spec fn column_width(lines: Seq<Seq<Text>>, column: int, n: nat) -> nat
    decreases n,
{
    if n == 0 {
        0
    } else {
        let before = column_width(lines, column, (n - 1) as nat);
        let here = lines[n - 1][column].len();
        if here > before {
            here
        } else {
            before
        }
    }
}

/// The widths of all columns.
pub open spec fn widths(lines: Seq<Seq<Text>>, columns: nat) -> Seq<nat> {
    Seq::new(columns, |i: int| column_width(lines, i, lines.len()))
}

/// A character a number of times.
pub open spec fn repeated(c: char, n: nat) -> Text {
    Seq::new(n, |i: int| c)
}

/// The text, filled up with blanks to a width.
pub open spec fn padded(s: Text, width: nat) -> Text {
    s + repeated(
        ' ',
        if s.len() < width {
            (width - s.len()) as nat
        } else {
            0
        },
    )
}

/// A line of the table.
pub open spec fn table_line(cells: Seq<Text>, ws: Seq<nat>) -> Text {
    join(Seq::new(cells.len(), |i: int| padded(cells[i], ws[i])), " | "@)
}

/// The rule under the names of the columns.
pub open spec fn table_rule(ws: Seq<nat>) -> Text {
    join(Seq::new(ws.len(), |i: int| repeated('-', ws[i])), "-+-"@)
}

/// The first `n` rows of the table, each ended by a line feed; line 0 holds the names.
pub open spec fn table_rows(lines: Seq<Seq<Text>>, ws: Seq<nat>, n: nat) -> Text
    decreases n,
{
    if n == 0 {
        Seq::empty()
    } else {
        table_rows(lines, ws, (n - 1) as nat) + table_line(lines[n as int], ws) + "\n"@
    }
}

/// The table: the names of the columns, a rule, and the rows.
pub open spec fn table(r: ResultModel) -> Text {
    let lines = table_cells(r);
    let ws = widths(lines, r.columns.len());
    table_line(r.columns, ws) + "\n"@ + table_rule(ws) + "\n"@ + table_rows(lines, ws, r.rows.len())
}

/// The rendering of a result.
pub open spec fn formatted(r: ResultModel, output: OutputFormat) -> Text {
    match output {
        OutputFormat::Table => table(r),
        OutputFormat::Json => json(result_value(r)),
    }
}

// ---- Executable counterparts -----------------------------------------------------

/// The values of a row under the names of their columns.
fn name_values(columns: &Vec<String>, row: &Vec<CypherValue>) -> (r: Vec<(String, CypherValue)>)
    ensures
        entry_models(r@) == named(texts(columns@), value_models(row@)),
{
    let ghost all = named(texts(columns@), value_models(row@));
    let mut out: Vec<(String, CypherValue)> = Vec::new();
    let mut i: usize = 0;
    assert(entry_models(out@) =~= all.take(0));
    while i < columns.len() && i < row.len()
        invariant
            i <= columns@.len(),
            i <= row@.len(),
            all == named(texts(columns@), value_models(row@)),
            entry_models(out@) == all.take(i as int),
        decreases columns@.len() - i,
    {
        let entry = (columns[i].clone(), row[i].clone());
        proof {
            lemma_entry_models_push(out@, entry);
        }
        out.push(entry);
        i += 1;
        assert(entry_models(out@) =~= all.take(i as int));
    }
    assert(all.take(i as int) =~= all);
    out
}

/// A result as a value.
fn to_value(result: &ResultSet) -> (r: CypherValue)
    ensures
        r@ == result_value(result@),
{
    let ghost all = result_value(result@)->List_0;
    let mut out: Vec<CypherValue> = Vec::new();
    let mut i: usize = 0;
    assert(value_models(out@) =~= all.take(0));
    while i < result.rows.len()
        invariant
            i <= result.rows@.len(),
            all == result_value(result@)->List_0,
            value_models(out@) == all.take(i as int),
        decreases result.rows@.len() - i,
    {
        let row = CypherValue::Mapping(name_values(&result.columns, &result.rows[i]));
        assert(result@.rows[i as int] == value_models(result.rows@[i as int]@));
        proof {
            lemma_value_models_push(out@, row);
        }
        out.push(row);
        i += 1;
        assert(value_models(out@) =~= all.take(i as int));
    }
    assert(all.take(i as int) =~= all);
    CypherValue::List(out)
}

/// The models of the lines of a table.
spec fn line_models(lines: Seq<Vec<String>>) -> Seq<Seq<Text>> {
    Seq::new(lines.len(), |i: int| texts(lines[i]@))
}

/// The texts of a row, one for each of `n` columns.
fn row_texts(row: &Vec<CypherValue>, n: usize) -> (r: Vec<String>)
    ensures
        texts(r@) == cell_texts(value_models(row@), n as nat),
{
    let ghost all = cell_texts(value_models(row@), n as nat);
    let mut out: Vec<String> = Vec::new();
    let mut i: usize = 0;
    assert(texts(out@) =~= all.take(0));
    while i < n
        invariant
            i <= n,
            all == cell_texts(value_models(row@), n as nat),
            texts(out@) == all.take(i as int),
        decreases n - i,
    {
        let text = if i < row.len() {
            assert(value_models(row@)[i as int] == row@[i as int]@);
            row[i].to_display_string()
        } else {
            let empty = String::new();
            assert(empty@ =~= Seq::empty());
            empty
        };
        proof {
            lemma_texts_push(out@, text);
        }
        out.push(text);
        i += 1;
        assert(texts(out@) =~= all.take(i as int));
    }
    assert(all.take(i as int) =~= all);
    out
}

/// The lines of the table without its rule.
fn lines_of(result: &ResultSet) -> (r: Vec<Vec<String>>)
    ensures
        line_models(r@) == table_cells(result@),
{
    let ghost all = table_cells(result@);
    let mut out: Vec<Vec<String>> = Vec::new();
    out.push(crate::ast::clone_strings(&result.columns));
    let mut i: usize = 0;
    let n: usize = result.columns.len();
    assert(line_models(out@) =~= all.take(1));
    while i < result.rows.len()
        invariant
            i <= result.rows@.len(),
            n == result.columns@.len(),
            all == table_cells(result@),
            line_models(out@) == all.take(i as int + 1),
        decreases result.rows@.len() - i,
    {
        let line = row_texts(&result.rows[i], n);
        assert(result@.rows[i as int] == value_models(result.rows@[i as int]@));
        assert(all[i as int + 1] == texts(line@));
        let ghost before = out@;
        out.push(line);
        i += 1;
        assert(line_models(out@) =~= line_models(before).push(texts(line@)));
        assert(line_models(out@) =~= all.take(i as int + 1));
    }
    assert(all.take(i as int + 1) =~= all);
    out
}

/// The number of characters of a string.
fn length(s: &String) -> (r: usize)
    ensures
        r == s@.len(),
{
    let chars = chars_of(s.as_str());
    chars.len()
}

/// The models of widths.
spec fn width_models(ws: Seq<usize>) -> Seq<nat> {
    Seq::new(ws.len(), |i: int| ws[i] as nat)
}

/// The widths of all columns.
fn measure(lines: &Vec<Vec<String>>, columns: usize) -> (r: Vec<usize>)
    requires
        forall|k: int| 0 <= k < lines@.len() ==> (#[trigger] lines@[k])@.len() == columns,
    ensures
        width_models(r@) == widths(line_models(lines@), columns as nat),
{
    let ghost models = line_models(lines@);
    let mut out: Vec<usize> = Vec::new();
    let mut c: usize = 0;
    while c < columns
        invariant
            c <= columns,
            models == line_models(lines@),
            forall|k: int| 0 <= k < lines@.len() ==> (#[trigger] lines@[k])@.len() == columns,
            out@.len() == c,
            forall|k: int|
                0 <= k < c ==> (#[trigger] out@[k]) == column_width(models, k, models.len()),
        decreases columns - c,
    {
        let mut width: usize = 0;
        let mut i: usize = 0;
        while i < lines.len()
            invariant
                i <= lines@.len(),
                c < columns,
                models == line_models(lines@),
                forall|k: int| 0 <= k < lines@.len() ==> (#[trigger] lines@[k])@.len() == columns,
                width == column_width(models, c as int, i as nat),
            decreases lines@.len() - i,
        {
            let line = &lines[i];
            assert(lines@[i as int]@.len() == columns);
            let here = length(&line[c]);
            assert(models[i as int][c as int] == line@[c as int]@);
            if here > width {
                width = here;
            }
            i += 1;
        }
        out.push(width);
        c += 1;
    }
    assert(width_models(out@) =~= widths(models, columns as nat));
    out
}

/// Appends a character a number of times.
fn push_repeated(out: &mut String, c: char, n: usize)
    ensures
        final(out)@ == old(out)@ + repeated(c, n as nat),
{
    let ghost start = out@;
    let mut i: usize = 0;
    assert(start + repeated(c, 0) =~= start);
    while i < n
        invariant
            i <= n,
            out@ == start + repeated(c, i as nat),
        decreases n - i,
    {
        out.push(c);
        i += 1;
        assert(out@ =~= start + repeated(c, i as nat));
    }
}

/// Appends a text filled up with blanks.
fn push_padded(out: &mut String, s: &String, width: usize)
    ensures
        final(out)@ == old(out)@ + padded(s@, width as nat),
{
    let ghost start = out@;
    let n = length(s);
    push_text(out, s.as_str());
    push_repeated(
        out,
        ' ',
        if n < width {
            width - n
        } else {
            0
        },
    );
    assert(out@ =~= start + padded(s@, width as nat));
}

/// Appends a line of the table.
fn push_line(out: &mut String, cells: &Vec<String>, ws: &Vec<usize>)
    requires
        cells@.len() == ws@.len(),
    ensures
        final(out)@ == old(out)@ + table_line(texts(cells@), width_models(ws@)),
{
    let ghost start = out@;
    let ghost parts = Seq::new(
        texts(cells@).len(),
        |i: int| padded(texts(cells@)[i], width_models(ws@)[i]),
    );
    let mut i: usize = 0;
    assert(parts.take(0) =~= Seq::empty());
    assert(start + join(parts.take(0), " | "@) =~= start);
    while i < cells.len()
        invariant
            i <= cells@.len(),
            cells@.len() == ws@.len(),
            parts == Seq::new(
                texts(cells@).len(),
                |i: int| padded(texts(cells@)[i], width_models(ws@)[i]),
            ),
            out@ == start + join(parts.take(i as int), " | "@),
        decreases cells@.len() - i,
    {
        if i > 0 {
            push_text(out, " | ");
        }
        push_padded(out, &cells[i], ws[i]);
        proof {
            lemma_join_push(parts.take(i as int), parts[i as int], " | "@);
            assert(parts.take(i as int).push(parts[i as int]) =~= parts.take(i as int + 1));
        }
        i += 1;
        assert(out@ =~= start + join(parts.take(i as int), " | "@));
    }
    assert(parts.take(i as int) =~= parts);
}

/// Appends the rule under the names of the columns.
fn push_rule(out: &mut String, ws: &Vec<usize>)
    ensures
        final(out)@ == old(out)@ + table_rule(width_models(ws@)),
{
    let ghost start = out@;
    let ghost parts = Seq::new(
        width_models(ws@).len(),
        |i: int| repeated('-', width_models(ws@)[i]),
    );
    let mut i: usize = 0;
    assert(parts.take(0) =~= Seq::empty());
    assert(start + join(parts.take(0), "-+-"@) =~= start);
    while i < ws.len()
        invariant
            i <= ws@.len(),
            parts == Seq::new(
                width_models(ws@).len(),
                |i: int| repeated('-', width_models(ws@)[i]),
            ),
            out@ == start + join(parts.take(i as int), "-+-"@),
        decreases ws@.len() - i,
    {
        if i > 0 {
            push_text(out, "-+-");
        }
        push_repeated(out, '-', ws[i]);
        proof {
            lemma_join_push(parts.take(i as int), parts[i as int], "-+-"@);
            assert(parts.take(i as int).push(parts[i as int]) =~= parts.take(i as int + 1));
        }
        i += 1;
        assert(out@ =~= start + join(parts.take(i as int), "-+-"@));
    }
    assert(parts.take(i as int) =~= parts);
}

/// Renders a result as a table.
fn format_table(result: &ResultSet) -> (r: String)
    ensures
        r@ == table(result@),
{
    let lines = lines_of(result);
    let ghost models = table_cells(result@);
    let n: usize = result.columns.len();
    assert(result@.columns.len() == n);
    assert(lines@.len() == models.len());
    assert forall|k: int| 0 <= k < lines@.len() implies (#[trigger] lines@[k])@.len() == n by {
        assert(line_models(lines@)[k] == texts(lines@[k]@));
        if k > 0 {
            assert(models[k] == body_cells(result@)[k - 1]);
            assert(body_cells(result@)[k - 1].len() == n);
        }
    }
    let ws = measure(&lines, n);
    let ghost wm = widths(models, n as nat);
    assert(wm.len() == n);
    assert(ws@.len() == width_models(ws@).len());
    let mut out = String::new();
    push_line(&mut out, &result.columns, &ws);
    push_text(&mut out, "\n");
    push_rule(&mut out, &ws);
    push_text(&mut out, "\n");
    let ghost head = table_line(result@.columns, wm) + "\n"@ + table_rule(wm) + "\n"@;
    assert(out@ =~= head + table_rows(models, wm, 0));
    let mut i: usize = 1;
    while i < lines.len()
        invariant
            1 <= i <= lines@.len(),
            models == line_models(lines@),
            wm == width_models(ws@),
            ws@.len() == n,
            forall|k: int| 0 <= k < lines@.len() ==> (#[trigger] lines@[k])@.len() == n,
            out@ == head + table_rows(models, wm, (i - 1) as nat),
        decreases lines@.len() - i,
    {
        assert(models[i as int] == texts(lines@[i as int]@));
        assert(lines@[i as int]@.len() == n);
        push_line(&mut out, &lines[i], &ws);
        push_text(&mut out, "\n");
        assert(out@ =~= head + table_rows(models, wm, i as nat));
        i += 1;
    }
    out
}

/// Renders a result.
pub fn format(result: &ResultSet, output_format: OutputFormat) -> (r: String)
    ensures
        r@ == formatted(result@, output_format),
{
    match output_format {
        OutputFormat::Table => format_table(result),
        OutputFormat::Json => {
            let mut out = String::new();
            to_value(result).write_json(&mut out);
            assert(out@ =~= json(result_value(result@)));
            out
        },
    }
}

/// The result with the ids of its nodes taken out.
pub open spec fn result_without_ids(r: ResultModel) -> ResultModel {
    ResultModel {
        columns: r.columns,
        rows: Seq::new(r.rows.len(), |i: int| items_without_ids(r.rows[i])),
    }
}

/// The id of a node never shows in the output, neither in a table nor in JSON.
pub proof fn lemma_output_ignores_ids(r: ResultModel, output: OutputFormat)
    ensures
        formatted(result_without_ids(r), output) == formatted(r, output),
{
    let bare = result_without_ids(r);
    match output {
        OutputFormat::Table => {
            assert forall|i: int| 0 <= i < r.rows.len() implies body_cells(bare)[i] == body_cells(
                r,
            )[i] by {
                assert(cell_texts(bare.rows[i], r.columns.len()) =~= cell_texts(
                    r.rows[i],
                    r.columns.len(),
                )) by {
                    assert forall|c: int| 0 <= c < r.columns.len() implies cell_text(
                        bare.rows[i],
                        c,
                    ) == cell_text(r.rows[i], c) by {
                        if c < r.rows[i].len() {
                            lemma_rendering_ignores_ids(r.rows[i][c]);
                        }
                    }
                }
            }
            assert(body_cells(bare) =~= body_cells(r));
        },
        OutputFormat::Json => {
            let v = result_value(r);
            lemma_rendering_ignores_ids(v);
            let items = v->List_0;
            let bare_items = result_value(bare)->List_0;
            assert forall|i: int| 0 <= i < items.len() implies #[trigger] bare_items[i]
                == items_without_ids(items)[i] by {
                assert(named(r.columns, bare.rows[i]) =~= entries_without_ids(
                    named(r.columns, r.rows[i]),
                ));
                assert(without_ids(items[i]) == ValueModel::Mapping(
                    entries_without_ids(named(r.columns, r.rows[i])),
                ));
            }
            assert(bare_items =~= items_without_ids(items));
            assert(result_value(bare) == without_ids(v));
        },
    }
}

} // verus!
